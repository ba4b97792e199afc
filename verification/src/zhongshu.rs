//! Big segment pivot zones (zhongshu) inside superior segments, and the third buy/sell
//! markers after them.
//!
//! Rules:
//!   1. At most one pivot zone (the first) per superior segment.
//!   2. The superior segment needs at least three big segments; with exactly three the
//!      zone is the range of the second (reverse) big segment.
//!   3. With four or more, the second and fourth big segments form the deciding pair:
//!      zd = max of their lows, zg = min of their highs.
//!      zd < zg gives an overlapping zone [zd, zg]; otherwise the zone falls back to the
//!      second big segment alone and does not extend.
//!   4. A big segment's range is the range of its two end point prices only.
//!   5. Extension: following big segments that overlap [zd, zg] (touching counts) join the
//!      zone; the first one that leaves stops it. Only big segments of the deciding pair's
//!      direction move the right edge. The zone never leaves its superior segment.
//!   6. gg / dd: highest / lowest price over all participating big segments.
//!   7. Third buy/sell: after the zone, the first pair (leave, retest) whose retest end bar
//!      stays above zg (after an up leave) or below zd (after a down leave) gives one marker.

use vstd::prelude::*;

use crate::candles::max_i64;
use crate::candles::min_i64;
use crate::types::Stroke;

verus! {

/// Big segment pivot zone.
#[derive(Debug, Clone, Copy, PartialEq, Eq, Structural)]
pub struct BigSegmentZhongShu {
    /// Index of the superior segment it belongs to.
    pub sup_idx: usize,
    /// Left edge: start bar of the second big segment.
    pub start_bar: usize,
    /// Right edge: end bar of the last participating big segment of the pair's direction.
    pub end_bar: usize,
    /// Upper edge.
    pub zg: i64,
    /// Lower edge.
    pub zd: i64,
    /// Highest price of the participating big segments.
    pub gg: i64,
    /// Lowest price of the participating big segments.
    pub dd: i64,
}

/// Price range and bar span of one big segment, from its two end points.
#[derive(Debug, Clone, Copy, PartialEq, Eq, Structural)]
pub struct BigSegRange {
    pub low: i64,
    pub high: i64,
    pub start_bar: usize,
    pub end_bar: usize,
}

pub open spec fn bigseg_range_spec(
    big: (usize, usize, bool),
    segs: Seq<(usize, usize, bool)>,
    strokes: Seq<Stroke>,
) -> Option<BigSegRange> {
    let (seg_start, seg_end, _d) = big;
    if seg_start > seg_end || seg_end >= segs.len() {
        None
    } else if segs[seg_start as int].0 >= strokes.len() || segs[seg_end as int].1 >= strokes.len() {
        None
    } else {
        let s = strokes[segs[seg_start as int].0 as int];
        let e = strokes[segs[seg_end as int].1 as int];
        Some(
            BigSegRange {
                low: min_i64(s.start_price, e.end_price),
                high: max_i64(s.start_price, e.end_price),
                start_bar: s.start_bar,
                end_bar: e.end_bar,
            },
        )
    }
}

fn resolve_bigseg_range(
    big: (usize, usize, bool),
    segs: &[(usize, usize, bool)],
    strokes: &[Stroke],
) -> (r: Option<BigSegRange>)
    ensures
        r == bigseg_range_spec(big, segs@, strokes@),
{
    let (seg_start, seg_end, _d) = big;
    if seg_start > seg_end || seg_end >= segs.len() {
        return None;
    }
    let si = segs[seg_start].0;
    let ei = segs[seg_end].1;
    if si >= strokes.len() || ei >= strokes.len() {
        return None;
    }
    let s = strokes[si];
    let e = strokes[ei];
    let low = if s.start_price <= e.end_price {
        s.start_price
    } else {
        e.end_price
    };
    let high = if s.start_price >= e.end_price {
        s.start_price
    } else {
        e.end_price
    };
    Some(BigSegRange { low, high, start_bar: s.start_bar, end_bar: e.end_bar })
}

/// Extends a zone over big segments `j..=big_end`: (right edge, gg, dd).
pub open spec fn zs_extend(
    bigs: Seq<(usize, usize, bool)>,
    segs: Seq<(usize, usize, bool)>,
    strokes: Seq<Stroke>,
    sup_up: bool,
    zg: i64,
    zd: i64,
    j: int,
    big_end: int,
    end_bar: usize,
    gg: i64,
    dd: i64,
) -> (usize, i64, i64)
    decreases big_end + 1 - j,
{
    if j > big_end || j < 0 || j >= bigs.len() {
        (end_bar, gg, dd)
    } else {
        match bigseg_range_spec(bigs[j], segs, strokes) {
            None => (end_bar, gg, dd),
            Some(br) => if br.low <= zg && br.high >= zd {
                zs_extend(
                    bigs,
                    segs,
                    strokes,
                    sup_up,
                    zg,
                    zd,
                    j + 1,
                    big_end,
                    if bigs[j].2 != sup_up {
                        br.end_bar
                    } else {
                        end_bar
                    },
                    max_i64(gg, br.high),
                    min_i64(dd, br.low),
                )
            } else {
                (end_bar, gg, dd)
            },
        }
    }
}

/// The zone formed by the second big segment alone.
pub open spec fn single_reverse_zone(sup_idx: usize, b1: BigSegRange) -> BigSegmentZhongShu {
    BigSegmentZhongShu {
        sup_idx,
        start_bar: b1.start_bar,
        end_bar: b1.end_bar,
        zg: b1.high,
        zd: b1.low,
        gg: b1.high,
        dd: b1.low,
    }
}

/// The first pivot zone of superior segment `sup_idx`, if any.
pub open spec fn zone_of_sup(
    sups: Seq<(usize, usize, bool)>,
    bigs: Seq<(usize, usize, bool)>,
    segs: Seq<(usize, usize, bool)>,
    strokes: Seq<Stroke>,
    sup_idx: int,
) -> Option<BigSegmentZhongShu> {
    let (big_start, big_end, sup_up) = sups[sup_idx];
    if big_end < big_start + 2 || big_end >= bigs.len() {
        None
    } else {
        match bigseg_range_spec(bigs[big_start + 1], segs, strokes) {
            None => None,
            Some(b1) => if big_end == big_start + 2 {
                Some(single_reverse_zone(sup_idx as usize, b1))
            } else {
                match bigseg_range_spec(bigs[big_start + 3], segs, strokes) {
                    None => None,
                    Some(b2) => {
                        let zd = max_i64(b1.low, b2.low);
                        let zg = min_i64(b1.high, b2.high);
                        if zd >= zg {
                            Some(single_reverse_zone(sup_idx as usize, b1))
                        } else {
                            let gg0 = max_i64(b1.high, b2.high);
                            let dd0 = min_i64(b1.low, b2.low);
                            let (gg1, dd1) = match bigseg_range_spec(
                                bigs[big_start + 2],
                                segs,
                                strokes,
                            ) {
                                Some(bm) => (max_i64(gg0, bm.high), min_i64(dd0, bm.low)),
                                None => (gg0, dd0),
                            };
                            let (end_bar, gg, dd) = zs_extend(
                                bigs,
                                segs,
                                strokes,
                                sup_up,
                                zg,
                                zd,
                                big_start + 4,
                                big_end as int,
                                b2.end_bar,
                                gg1,
                                dd1,
                            );
                            Some(
                                BigSegmentZhongShu {
                                    sup_idx: sup_idx as usize,
                                    start_bar: b1.start_bar,
                                    end_bar,
                                    zg,
                                    zd,
                                    gg,
                                    dd,
                                },
                            )
                        }
                    },
                }
            },
        }
    }
}

/// Zones of the first `n` superior segments, in order.
pub open spec fn zones_upto(
    sups: Seq<(usize, usize, bool)>,
    bigs: Seq<(usize, usize, bool)>,
    segs: Seq<(usize, usize, bool)>,
    strokes: Seq<Stroke>,
    n: int,
) -> Seq<BigSegmentZhongShu>
    decreases n,
{
    if n <= 0 || n > sups.len() {
        Seq::empty()
    } else {
        let zs = zones_upto(sups, bigs, segs, strokes, n - 1);
        match zone_of_sup(sups, bigs, segs, strokes, n - 1) {
            Some(z) => zs.push(z),
            None => zs,
        }
    }
}

pub open spec fn zhongshus_spec(
    sups: Seq<(usize, usize, bool)>,
    bigs: Seq<(usize, usize, bool)>,
    segs: Seq<(usize, usize, bool)>,
    strokes: Seq<Stroke>,
) -> Seq<BigSegmentZhongShu> {
    zones_upto(sups, bigs, segs, strokes, sups.len() as int)
}

fn zs_extend_exec(
    bigs: &[(usize, usize, bool)],
    segs: &[(usize, usize, bool)],
    strokes: &[Stroke],
    sup_up: bool,
    zg: i64,
    zd: i64,
    from: usize,
    big_end: usize,
    end_bar0: usize,
    gg0: i64,
    dd0: i64,
) -> (r: (usize, i64, i64))
    requires
        big_end < bigs.len(),
    ensures
        r == zs_extend(
            bigs@,
            segs@,
            strokes@,
            sup_up,
            zg,
            zd,
            from as int,
            big_end as int,
            end_bar0,
            gg0,
            dd0,
        ),
{
    let mut end_bar = end_bar0;
    let mut gg = gg0;
    let mut dd = dd0;
    let mut j = from;
    while j <= big_end
        invariant
            big_end < bigs.len(),
            zs_extend(
                bigs@,
                segs@,
                strokes@,
                sup_up,
                zg,
                zd,
                from as int,
                big_end as int,
                end_bar0,
                gg0,
                dd0,
            ) == zs_extend(
                bigs@,
                segs@,
                strokes@,
                sup_up,
                zg,
                zd,
                j as int,
                big_end as int,
                end_bar,
                gg,
                dd,
            ),
        decreases big_end + 1 - j,
    {
        match resolve_bigseg_range(bigs[j], segs, strokes) {
            None => {
                return (end_bar, gg, dd);
            },
            Some(br) => {
                if br.low <= zg && br.high >= zd {
                    if bigs[j].2 != sup_up {
                        end_bar = br.end_bar;
                    }
                    gg = if gg >= br.high {
                        gg
                    } else {
                        br.high
                    };
                    dd = if dd <= br.low {
                        dd
                    } else {
                        br.low
                    };
                    j = j + 1;
                } else {
                    return (end_bar, gg, dd);
                }
            },
        }
    }
    (end_bar, gg, dd)
}

fn zone_of_sup_exec(
    sups: &[(usize, usize, bool)],
    bigs: &[(usize, usize, bool)],
    segs: &[(usize, usize, bool)],
    strokes: &[Stroke],
    sup_idx: usize,
) -> (r: Option<BigSegmentZhongShu>)
    requires
        sup_idx < sups.len(),
    ensures
        r == zone_of_sup(sups@, bigs@, segs@, strokes@, sup_idx as int),
{
    let (big_start, big_end, sup_up) = sups[sup_idx];
    if big_end < big_start || big_end - big_start < 2 || big_end >= bigs.len() {
        return None;
    }
    let b1 = match resolve_bigseg_range(bigs[big_start + 1], segs, strokes) {
        Some(b) => b,
        None => {
            return None;
        },
    };
    let single = BigSegmentZhongShu {
        sup_idx,
        start_bar: b1.start_bar,
        end_bar: b1.end_bar,
        zg: b1.high,
        zd: b1.low,
        gg: b1.high,
        dd: b1.low,
    };
    if big_end - big_start == 2 {
        return Some(single);
    }
    let b2 = match resolve_bigseg_range(bigs[big_start + 3], segs, strokes) {
        Some(b) => b,
        None => {
            return None;
        },
    };
    let zd = if b1.low >= b2.low {
        b1.low
    } else {
        b2.low
    };
    let zg = if b1.high <= b2.high {
        b1.high
    } else {
        b2.high
    };
    if zd >= zg {
        return Some(single);
    }
    let mut gg = if b1.high >= b2.high {
        b1.high
    } else {
        b2.high
    };
    let mut dd = if b1.low <= b2.low {
        b1.low
    } else {
        b2.low
    };
    match resolve_bigseg_range(bigs[big_start + 2], segs, strokes) {
        Some(bm) => {
            gg = if gg >= bm.high {
                gg
            } else {
                bm.high
            };
            dd = if dd <= bm.low {
                dd
            } else {
                bm.low
            };
        },
        None => {},
    }
    let (end_bar, gg2, dd2) = zs_extend_exec(
        bigs,
        segs,
        strokes,
        sup_up,
        zg,
        zd,
        big_start + 4,
        big_end,
        b2.end_bar,
        gg,
        dd,
    );
    Some(
        BigSegmentZhongShu {
            sup_idx,
            start_bar: b1.start_bar,
            end_bar,
            zg,
            zd,
            gg: gg2,
            dd: dd2,
        },
    )
}

/// Detects the first big segment pivot zone of every superior segment.
pub fn detect_bigseg_zhongshus(
    superior_segments: &[(usize, usize, bool)],
    big_segments: &[(usize, usize, bool)],
    segments: &[(usize, usize, bool)],
    strokes: &[Stroke],
) -> (out: Vec<BigSegmentZhongShu>)
    ensures
        out@ == zhongshus_spec(superior_segments@, big_segments@, segments@, strokes@),
{
    let mut out: Vec<BigSegmentZhongShu> = Vec::new();
    let mut n: usize = 0;
    while n < superior_segments.len()
        invariant
            n <= superior_segments.len(),
            out@ == zones_upto(superior_segments@, big_segments@, segments@, strokes@, n as int),
        decreases superior_segments.len() - n,
    {
        match zone_of_sup_exec(superior_segments, big_segments, segments, strokes, n) {
            Some(z) => out.push(z),
            None => {},
        }
        n = n + 1;
    }
    out
}

/// The zone's edges lie inside the range of its participating big segments.
pub open spec fn zone_nested(z: BigSegmentZhongShu) -> bool {
    z.dd <= z.zd <= z.zg <= z.gg
}

proof fn lemma_zs_extend(
    bigs: Seq<(usize, usize, bool)>,
    segs: Seq<(usize, usize, bool)>,
    strokes: Seq<Stroke>,
    sup_up: bool,
    zg: i64,
    zd: i64,
    j: int,
    big_end: int,
    end_bar: usize,
    gg: i64,
    dd: i64,
)
    ensures
        zs_extend(bigs, segs, strokes, sup_up, zg, zd, j, big_end, end_bar, gg, dd).1 >= gg,
        zs_extend(bigs, segs, strokes, sup_up, zg, zd, j, big_end, end_bar, gg, dd).2 <= dd,
    decreases big_end + 1 - j,
{
    if !(j > big_end || j < 0 || j >= bigs.len()) {
        match bigseg_range_spec(bigs[j], segs, strokes) {
            None => {},
            Some(br) => {
                if br.low <= zg && br.high >= zd {
                    lemma_zs_extend(
                        bigs,
                        segs,
                        strokes,
                        sup_up,
                        zg,
                        zd,
                        j + 1,
                        big_end,
                        if bigs[j].2 != sup_up {
                            br.end_bar
                        } else {
                            end_bar
                        },
                        max_i64(gg, br.high),
                        min_i64(dd, br.low),
                    );
                }
            },
        }
    }
}

proof fn lemma_zones_upto_nested(
    sups: Seq<(usize, usize, bool)>,
    bigs: Seq<(usize, usize, bool)>,
    segs: Seq<(usize, usize, bool)>,
    strokes: Seq<Stroke>,
    n: int,
)
    ensures
        forall|k: int|
            0 <= k < zones_upto(sups, bigs, segs, strokes, n).len() ==> zone_nested(
                #[trigger] zones_upto(sups, bigs, segs, strokes, n)[k],
            ) && zones_upto(sups, bigs, segs, strokes, n)[k].sup_idx < sups.len(),
    decreases n,
{
    if !(n <= 0 || n > sups.len()) {
        lemma_zones_upto_nested(sups, bigs, segs, strokes, n - 1);
        let zs = zones_upto(sups, bigs, segs, strokes, n - 1);
        let (big_start, big_end, sup_up) = sups[n - 1];
        if !(big_end < big_start + 2 || big_end >= bigs.len()) && big_end != big_start + 2 {
            match bigseg_range_spec(bigs[big_start + 1], segs, strokes) {
                Some(b1) => match bigseg_range_spec(bigs[big_start + 3], segs, strokes) {
                    Some(b2) => {
                        let zd = max_i64(b1.low, b2.low);
                        let zg = min_i64(b1.high, b2.high);
                        let gg0 = max_i64(b1.high, b2.high);
                        let dd0 = min_i64(b1.low, b2.low);
                        let (gg1, dd1) = match bigseg_range_spec(
                            bigs[big_start + 2],
                            segs,
                            strokes,
                        ) {
                            Some(bm) => (max_i64(gg0, bm.high), min_i64(dd0, bm.low)),
                            None => (gg0, dd0),
                        };
                        lemma_zs_extend(
                            bigs,
                            segs,
                            strokes,
                            sup_up,
                            zg,
                            zd,
                            big_start + 4,
                            big_end as int,
                            b2.end_bar,
                            gg1,
                            dd1,
                        );
                    },
                    None => {},
                },
                None => {},
            }
        }
        let r = zones_upto(sups, bigs, segs, strokes, n);
        assert forall|k: int| 0 <= k < r.len() implies zone_nested(#[trigger] r[k]) && r[k].sup_idx
            < sups.len() by {
            if k < zs.len() {
                assert(r[k] == zs[k]);
            }
        }
    }
}

/// Law: every zone satisfies dd <= zd <= zg <= gg and belongs to an existing superior
/// segment.
pub proof fn lemma_zhongshus_nested(
    sups: Seq<(usize, usize, bool)>,
    bigs: Seq<(usize, usize, bool)>,
    segs: Seq<(usize, usize, bool)>,
    strokes: Seq<Stroke>,
)
    ensures
        forall|k: int|
            0 <= k < zhongshus_spec(sups, bigs, segs, strokes).len() ==> zone_nested(
                #[trigger] zhongshus_spec(sups, bigs, segs, strokes)[k],
            ) && zhongshus_spec(sups, bigs, segs, strokes)[k].sup_idx < sups.len(),
{
    lemma_zones_upto_nested(sups, bigs, segs, strokes, sups.len() as int);
}

/// Third buy / third sell marker after a pivot zone.
#[derive(Debug, Clone, Copy, PartialEq, Eq, Structural)]
pub struct BigSegThirdMarker {
    /// End bar of the retest big segment.
    pub bar_index: usize,
    /// Lowest price (third buy) or highest price (third sell) of that bar.
    pub price: i64,
    /// true = third buy, false = third sell
    pub is_buy: bool,
}

/// First big segment in `k..=big_end` that starts at or after the zone's right edge
/// (`big_end + 1` when none does).
pub open spec fn leave_index(
    bigs: Seq<(usize, usize, bool)>,
    segs: Seq<(usize, usize, bool)>,
    strokes: Seq<Stroke>,
    zs_end_bar: usize,
    k: int,
    big_end: int,
) -> int
    decreases big_end + 1 - k,
{
    if k > big_end {
        k
    } else {
        match bigseg_range_spec(bigs[k], segs, strokes) {
            Some(br) => if br.start_bar >= zs_end_bar {
                k
            } else {
                leave_index(bigs, segs, strokes, zs_end_bar, k + 1, big_end)
            },
            None => leave_index(bigs, segs, strokes, zs_end_bar, k + 1, big_end),
        }
    }
}

/// Scans the pairs (k, k+1) up to `pair_end` for the first retest that stays outside the
/// zone.
pub open spec fn third_scan(
    bigs: Seq<(usize, usize, bool)>,
    segs: Seq<(usize, usize, bool)>,
    strokes: Seq<Stroke>,
    highs: Seq<i64>,
    lows: Seq<i64>,
    zs: BigSegmentZhongShu,
    k: int,
    pair_end: int,
) -> Option<BigSegThirdMarker>
    decreases pair_end - k,
{
    if k + 1 > pair_end {
        None
    } else {
        match bigseg_range_spec(bigs[k + 1], segs, strokes) {
            None => None,
            Some(r1) => {
                let is_up_leave = bigs[k].2;
                let hit = if is_up_leave {
                    r1.end_bar < lows.len() && lows[r1.end_bar as int] > zs.zg
                } else {
                    r1.end_bar < highs.len() && highs[r1.end_bar as int] < zs.zd
                };
                if hit {
                    Some(
                        BigSegThirdMarker {
                            bar_index: r1.end_bar,
                            price: if is_up_leave {
                                lows[r1.end_bar as int]
                            } else {
                                highs[r1.end_bar as int]
                            },
                            is_buy: is_up_leave,
                        },
                    )
                } else {
                    third_scan(bigs, segs, strokes, highs, lows, zs, k + 1, pair_end)
                }
            },
        }
    }
}

/// The third marker of one zone, if any.
pub open spec fn third_of_zone(
    sups: Seq<(usize, usize, bool)>,
    bigs: Seq<(usize, usize, bool)>,
    segs: Seq<(usize, usize, bool)>,
    strokes: Seq<Stroke>,
    highs: Seq<i64>,
    lows: Seq<i64>,
    zs: BigSegmentZhongShu,
) -> Option<BigSegThirdMarker> {
    let (big_start, big_end, _d) = sups[zs.sup_idx as int];
    let k = leave_index(bigs, segs, strokes, zs.end_bar, big_start as int, big_end as int);
    let pair_end = if k == big_end && k + 1 < bigs.len() {
        k + 1
    } else {
        big_end as int
    };
    third_scan(bigs, segs, strokes, highs, lows, zs, k, pair_end)
}

pub open spec fn thirds_upto(
    sups: Seq<(usize, usize, bool)>,
    bigs: Seq<(usize, usize, bool)>,
    segs: Seq<(usize, usize, bool)>,
    strokes: Seq<Stroke>,
    zones: Seq<BigSegmentZhongShu>,
    highs: Seq<i64>,
    lows: Seq<i64>,
    n: int,
) -> Seq<BigSegThirdMarker>
    decreases n,
{
    if n <= 0 || n > zones.len() {
        Seq::empty()
    } else {
        let ms = thirds_upto(sups, bigs, segs, strokes, zones, highs, lows, n - 1);
        match third_of_zone(sups, bigs, segs, strokes, highs, lows, zones[n - 1]) {
            Some(m) => ms.push(m),
            None => ms,
        }
    }
}

/// Every zone names an existing superior segment whose big segments exist.
pub open spec fn zones_in_range(
    sups: Seq<(usize, usize, bool)>,
    bigs: Seq<(usize, usize, bool)>,
    zones: Seq<BigSegmentZhongShu>,
) -> bool {
    forall|k: int|
        0 <= k < zones.len() ==> (#[trigger] zones[k]).sup_idx < sups.len() && (sups[zones[k].sup_idx as int].0
            <= sups[zones[k].sup_idx as int].1 ==> sups[zones[k].sup_idx as int].1 < bigs.len())
}

proof fn lemma_zones_upto_in_range(
    sups: Seq<(usize, usize, bool)>,
    bigs: Seq<(usize, usize, bool)>,
    segs: Seq<(usize, usize, bool)>,
    strokes: Seq<Stroke>,
    n: int,
)
    requires
        sups.len() <= usize::MAX,
    ensures
        zones_in_range(sups, bigs, zones_upto(sups, bigs, segs, strokes, n)),
    decreases n,
{
    if !(n <= 0 || n > sups.len()) {
        lemma_zones_upto_in_range(sups, bigs, segs, strokes, n - 1);
        let zs = zones_upto(sups, bigs, segs, strokes, n - 1);
        let r = zones_upto(sups, bigs, segs, strokes, n);
        assert forall|k: int| 0 <= k < r.len() implies (#[trigger] r[k]).sup_idx < sups.len() && (
        sups[r[k].sup_idx as int].0 <= sups[r[k].sup_idx as int].1 ==> sups[r[k].sup_idx as int].1
            < bigs.len()) by {
            if k < zs.len() {
                assert(r[k] == zs[k]);
            }
        }
    }
}

/// Law: every zone belongs to an existing superior segment whose last big segment exists.
pub proof fn lemma_zhongshus_in_range(
    sups: Seq<(usize, usize, bool)>,
    bigs: Seq<(usize, usize, bool)>,
    segs: Seq<(usize, usize, bool)>,
    strokes: Seq<Stroke>,
)
    requires
        sups.len() <= usize::MAX,
    ensures
        zones_in_range(sups, bigs, zhongshus_spec(sups, bigs, segs, strokes)),
{
    lemma_zones_upto_in_range(sups, bigs, segs, strokes, sups.len() as int);
}

fn third_of_zone_exec(
    sups: &[(usize, usize, bool)],
    bigs: &[(usize, usize, bool)],
    segs: &[(usize, usize, bool)],
    strokes: &[Stroke],
    highs: &[i64],
    lows: &[i64],
    zs: BigSegmentZhongShu,
) -> (r: Option<BigSegThirdMarker>)
    requires
        zs.sup_idx < sups.len(),
        sups@[zs.sup_idx as int].0 <= sups@[zs.sup_idx as int].1 ==> sups@[zs.sup_idx as int].1
            < bigs.len(),
    ensures
        r == third_of_zone(sups@, bigs@, segs@, strokes@, highs@, lows@, zs),
{
    let (big_start, big_end, _d) = sups[zs.sup_idx];
    let mut k = big_start;
    while k <= big_end
        invariant
            big_start <= big_end ==> big_end < bigs.len(),
            big_start <= k,
            big_start <= big_end ==> k <= big_end + 1,
            big_start > big_end ==> k == big_start,
            leave_index(bigs@, segs@, strokes@, zs.end_bar, big_start as int, big_end as int)
                == leave_index(bigs@, segs@, strokes@, zs.end_bar, k as int, big_end as int),
        ensures
            leave_index(bigs@, segs@, strokes@, zs.end_bar, big_start as int, big_end as int)
                == k as int,
            big_start <= big_end ==> k <= big_end + 1,
            big_start > big_end ==> k == big_start,
        decreases big_end + 1 - k,
    {
        match resolve_bigseg_range(bigs[k], segs, strokes) {
            Some(br) => {
                if br.start_bar >= zs.end_bar {
                    break ;
                }
            },
            None => {},
        }
        k = k + 1;
    }
    let pair_end = if k == big_end && k + 1 < bigs.len() {
        k + 1
    } else {
        big_end
    };
    let ghost k0 = k;
    assert(third_of_zone(sups@, bigs@, segs@, strokes@, highs@, lows@, zs) == third_scan(
        bigs@,
        segs@,
        strokes@,
        highs@,
        lows@,
        zs,
        k0 as int,
        pair_end as int,
    ));
    while k < pair_end
        invariant
            pair_end < bigs.len() || pair_end <= k,
            third_of_zone(sups@, bigs@, segs@, strokes@, highs@, lows@, zs) == third_scan(
                bigs@,
                segs@,
                strokes@,
                highs@,
                lows@,
                zs,
                k0 as int,
                pair_end as int,
            ),
            third_scan(bigs@, segs@, strokes@, highs@, lows@, zs, k0 as int, pair_end as int)
                == third_scan(bigs@, segs@, strokes@, highs@, lows@, zs, k as int, pair_end as int),
        decreases pair_end - k,
    {
        let r1 = match resolve_bigseg_range(bigs[k + 1], segs, strokes) {
            Some(r) => r,
            None => {
                return None;
            },
        };
        let is_up_leave = bigs[k].2;
        let hit = if is_up_leave {
            r1.end_bar < lows.len() && lows[r1.end_bar] > zs.zg
        } else {
            r1.end_bar < highs.len() && highs[r1.end_bar] < zs.zd
        };
        if hit {
            let price = if is_up_leave {
                lows[r1.end_bar]
            } else {
                highs[r1.end_bar]
            };
            return Some(BigSegThirdMarker { bar_index: r1.end_bar, price, is_buy: is_up_leave });
        }
        k = k + 1;
    }
    None
}

/// Third buy / third sell markers: at most one per zone.
pub fn detect_bigseg_third_marks(
    superior_segments: &[(usize, usize, bool)],
    big_segments: &[(usize, usize, bool)],
    segments: &[(usize, usize, bool)],
    strokes: &[Stroke],
    zhongshus: &[BigSegmentZhongShu],
    highs: &[i64],
    lows: &[i64],
) -> (out: Vec<BigSegThirdMarker>)
    requires
        zones_in_range(superior_segments@, big_segments@, zhongshus@),
    ensures
        out@ == thirds_upto(
            superior_segments@,
            big_segments@,
            segments@,
            strokes@,
            zhongshus@,
            highs@,
            lows@,
            zhongshus@.len() as int,
        ),
{
    let mut out: Vec<BigSegThirdMarker> = Vec::new();
    let mut n: usize = 0;
    while n < zhongshus.len()
        invariant
            n <= zhongshus.len(),
            zones_in_range(superior_segments@, big_segments@, zhongshus@),
            out@ == thirds_upto(
                superior_segments@,
                big_segments@,
                segments@,
                strokes@,
                zhongshus@,
                highs@,
                lows@,
                n as int,
            ),
        decreases zhongshus.len() - n,
    {
        let zs = zhongshus[n];
        assert(zhongshus@[n as int] == zs);
        match third_of_zone_exec(
            superior_segments,
            big_segments,
            segments,
            strokes,
            highs,
            lows,
            zs,
        ) {
            Some(m) => out.push(m),
            None => {},
        }
        n = n + 1;
    }
    out
}

} // verus!
