use chanlun_lean_lib::candles::sort_fractals_by_bar;
use chanlun_lean_lib::collect_segment_case3_events_with_cases;
use chanlun_lean_lib::collect_superior_case3_events_with_cases;
use chanlun_lean_lib::guidao::calc_lower_band_case1;
use chanlun_lean_lib::guidao::calc_upper_band_case1;
use chanlun_lean_lib::process_segments_with_cases;
use chanlun_lean_lib::process_superior_segments_with_cases;
use chanlun_lean_lib::chart::step_line;
use chanlun_lean_lib::detect_second_buy_markers;
use chanlun_lean_lib::filter_fractals;
use chanlun_lean_lib::guidao::apply_tracking;
use chanlun_lean_lib::guidao::detect_turn_signals;
use chanlun_lean_lib::guidao::relocate_band_lift_points;
use chanlun_lean_lib::guidao::tracking::sort_band_points;
use chanlun_lean_lib::guidao::BandPoint;
use chanlun_lean_lib::guidao::StrokeForTracking;
use chanlun_lean_lib::identify_fractals;
use chanlun_lean_lib::process_merged_candles;
use chanlun_lean_lib::process_strokes_fractals;
use chanlun_lean_lib::resolve_sup_end_point;
use chanlun_lean_lib::zhongshu::detect_bigseg_zhongshus;
use chanlun_lean_lib::ChanlunPipeline;
use chanlun_lean_lib::Fractal;
use chanlun_lean_lib::MergedCandle;
use chanlun_lean_lib::Stroke;
use chanlun_lean_lib::StrokeCases;

fn bp(value: i64, bar_index: usize) -> BandPoint {
    BandPoint { value, bar_index }
}

fn st(start_price: i64, end_price: i64, start_bar: usize, end_bar: usize, is_up: bool) -> Stroke {
    Stroke { start_price, end_price, start_bar, end_bar, is_up }
}

fn fr(price: i64, is_top: bool, bar_index: usize) -> Fractal {
    Fractal { price, is_top, bar_index, merged_index: bar_index, time: bar_index }
}

/// Zig-zag bars of growing amplitude.
fn zigzag() -> (Vec<i64>, Vec<i64>) {
    let mut highs: Vec<i64> = Vec::new();
    let mut lows: Vec<i64> = Vec::new();
    for k in 0..10i64 {
        let amp = 40 + 13 * k;
        for i in 0..9i64 {
            let base = if k % 2 == 0 { 1000 + i * amp / 8 } else { 1000 + amp - i * amp / 8 };
            highs.push(base + 7 + (i % 3));
            lows.push(base - 7 - (i % 2));
        }
    }
    (highs, lows)
}

#[test]
fn merged_neighbours_never_contain_each_other() {
    let highs = vec![10, 12, 11, 13, 12, 14, 13, 15, 14, 16, 15, 15, 14, 13];
    let lows = vec![8, 9, 7, 10, 8, 11, 9, 12, 10, 13, 12, 11, 10, 9];
    let m = process_merged_candles(&highs, &lows);
    assert!(m.len() >= 2);
    for k in 1..m.len() {
        let (a, b): (MergedCandle, MergedCandle) = (m[k - 1], m[k]);
        assert!((b.high > a.high && b.low > a.low) || (b.high < a.high && b.low < a.low), "{:?} {:?}", a, b);
    }
}

#[test]
fn merge_folds_an_inside_bar_into_the_trend() {
    let m = process_merged_candles(&[10, 12, 11], &[8, 9, 10]);
    assert_eq!(m.len(), 2);
    assert_eq!((m[1].high, m[1].low), (12, 10));
}

#[test]
fn fractal_sort_is_ordered_and_stable() {
    let v = vec![fr(5, true, 7), fr(3, false, 2), fr(4, true, 7), fr(1, false, 5)];
    let s = sort_fractals_by_bar(&v);
    let got: Vec<(usize, i64)> = s.iter().map(|f| (f.bar_index, f.price)).collect();
    assert_eq!(got, vec![(2, 3), (5, 1), (7, 5), (7, 4)]);
}

#[test]
fn filtered_fractals_alternate() {
    let (highs, lows) = zigzag();
    let valid = filter_fractals(&identify_fractals(&process_merged_candles(&highs, &lows)));
    assert!(valid.len() >= 2);
    for k in 1..valid.len() {
        assert_ne!(valid[k - 1].is_top, valid[k].is_top);
    }
}

#[test]
fn stroke_chain_alternates_and_comes_from_input() {
    let (highs, lows) = zigzag();
    let valid = filter_fractals(&identify_fractals(&process_merged_candles(&highs, &lows)));
    let chain = process_strokes_fractals(&valid, true, 4);
    assert!(!chain.is_empty());
    for k in 1..chain.len() {
        assert_ne!(chain[k - 1].is_top, chain[k].is_top);
    }
    for f in &chain {
        assert!(valid.contains(f));
    }
}

#[test]
fn strokes_go_forward_in_time() {
    let (highs, lows) = zigzag();
    let valid = filter_fractals(&identify_fractals(&process_merged_candles(&highs, &lows)));
    for k in 1..valid.len() {
        assert!(valid[k - 1].bar_index < valid[k].bar_index);
    }
    for param in 0..8u8 {
        let p = ChanlunPipeline::new_with_cases(
            highs.clone(),
            lows.clone(),
            StrokeCases::from_param(param),
            StrokeCases::from_param(param),
        );
        assert!(!p.strokes.is_empty());
        for k in 1..p.final_fractals.len() {
            assert!(p.final_fractals[k - 1].bar_index < p.final_fractals[k].bar_index);
        }
        for s in &p.strokes {
            assert!(s.start_bar < s.end_bar);
        }
    }
}

#[test]
fn segments_are_well_formed() {
    let (highs, lows) = zigzag();
    let p = ChanlunPipeline::new(highs, lows);
    for k in 0..p.segments.len() {
        let (s, e, up) = p.segments[k];
        assert!(s <= e && e < p.strokes.len());
        assert_eq!(p.strokes[s].is_up, up);
        assert_eq!(p.strokes[e].is_up, up);
        if k + 1 < p.segments.len() {
            assert!(e < p.segments[k + 1].0);
            assert_ne!(up, p.segments[k + 1].2);
        }
    }
}

#[test]
fn pipeline_stats_count_every_stage() {
    let (highs, lows) = zigzag();
    let p = ChanlunPipeline::new_with_cases(highs.clone(), lows.clone(), StrokeCases::from_param(3), StrokeCases::from_param(4));
    let s = p.stats();
    assert_eq!(s.bars, highs.len());
    assert_eq!(s.strokes + 1, p.final_fractals.len().max(1));
    assert_eq!(s.segments, p.segments.len());
}

#[test]
fn pivot_zones_are_nested() {
    let (highs, lows) = zigzag();
    let p = ChanlunPipeline::new(highs, lows);
    let zs = detect_bigseg_zhongshus(&p.superior_segments, &p.big_segments, &p.segments, &p.strokes);
    for z in &zs {
        assert!(z.dd <= z.zd && z.zd <= z.zg && z.zg <= z.gg);
        assert!(z.sup_idx < p.superior_segments.len());
    }
}

#[test]
fn second_markers_never_repeat() {
    let strokes = vec![
        st(100, 110, 0, 2, true),
        st(110, 100, 3, 5, false),
        st(100, 110, 6, 8, true),
        st(110, 100, 9, 11, false),
        st(100, 112, 12, 14, true),
        st(112, 104, 15, 17, false),
    ];
    let segs: Vec<(usize, usize, bool)> = (0..6).map(|i| (i, i, strokes[i].is_up)).collect();
    let sups = vec![(0, 0, true), (1, 1, false), (1, 1, false), (3, 3, false), (4, 4, true), (5, 5, false)];
    let m = detect_second_buy_markers(&strokes, &segs, &segs, &sups);
    for a in 0..m.len() {
        assert!(m[a].is_buy);
        for b in a + 1..m.len() {
            assert_ne!(m[a], m[b]);
        }
    }
}

#[test]
fn relocation_keeps_one_point_per_bar() {
    let merged = vec![
        MergedCandle { high: 12, low: 8, high_bar_index: 2, low_bar_index: 2 },
        MergedCandle { high: 11, low: 7, high_bar_index: 3, low_bar_index: 4 },
    ];
    let fs = vec![Fractal { price: 12, is_top: true, bar_index: 2, merged_index: 0, time: 2 }];
    let band = vec![bp(12, 2), bp(13, 3), bp(10, 1)];
    let raw = vec![bp(13, 3)];
    let r = relocate_band_lift_points(&band, &raw, &merged, &fs, true);
    assert_eq!(r, vec![bp(10, 1), bp(13, 3)]);
    for k in 1..r.len() {
        assert!(r[k - 1].bar_index < r[k].bar_index);
    }
}

#[test]
fn relocation_moves_a_lifted_point_to_confirmation() {
    let merged = vec![
        MergedCandle { high: 12, low: 8, high_bar_index: 2, low_bar_index: 2 },
        MergedCandle { high: 11, low: 7, high_bar_index: 3, low_bar_index: 4 },
    ];
    let fs = vec![Fractal { price: 12, is_top: true, bar_index: 2, merged_index: 0, time: 2 }];
    let r = relocate_band_lift_points(&[bp(12, 2)], &[], &merged, &fs, true);
    assert_eq!(r, vec![bp(12, 3)]);
    let r = relocate_band_lift_points(&[bp(12, 2)], &[bp(12, 2)], &merged, &fs, true);
    assert_eq!(r, vec![bp(12, 2)]);
}

#[test]
fn tracking_raises_the_upper_band_and_orders_it() {
    let legs = vec![
        StrokeForTracking { high: 12, low: 5, bar_index: 2 },
        StrokeForTracking { high: 11, low: 4, bar_index: 3 },
        StrokeForTracking { high: 15, low: 6, bar_index: 5 },
    ];
    let r = apply_tracking(&[bp(10, 0)], &legs, true);
    assert_eq!(r, vec![bp(10, 0), bp(12, 2), bp(15, 5)]);
    let r2 = apply_tracking(&[bp(20, 6), bp(10, 0)], &legs, true);
    assert_eq!(r2, vec![bp(10, 0), bp(12, 2), bp(15, 5), bp(20, 6)]);
    assert_eq!(apply_tracking(&[bp(3, 9), bp(1, 2)], &[], true), vec![bp(3, 9), bp(1, 2)]);
}

#[test]
fn tracking_lowers_the_lower_band() {
    let legs = vec![
        StrokeForTracking { high: 12, low: 5, bar_index: 2 },
        StrokeForTracking { high: 11, low: 4, bar_index: 3 },
    ];
    let r = apply_tracking(&[bp(6, 0), bp(9, 3)], &legs, false);
    assert_eq!(r, vec![bp(6, 0), bp(5, 2), bp(9, 3)]);
}

#[test]
fn band_point_sort_is_stable() {
    let s = sort_band_points(&[bp(1, 4), bp(2, 1), bp(3, 4), bp(4, 0)]);
    assert_eq!(s, vec![bp(4, 0), bp(2, 1), bp(1, 4), bp(3, 4)]);
}

#[test]
fn turns_refer_to_existing_strokes() {
    let strokes = vec![
        st(40, 20, 0, 10, false),
        st(20, 35, 10, 20, true),
        st(35, 10, 20, 30, false),
        st(10, 50, 30, 40, true),
        st(50, 5, 40, 50, false),
    ];
    let ts = detect_turn_signals(&strokes, &[], &[], &[]);
    assert_eq!(ts.len(), 2);
    for t in &ts {
        assert!(t.stroke_idx <= t.end_stroke_idx && t.end_stroke_idx < strokes.len());
        assert!(t.stroke_idx < t.trigger_stroke_idx && t.trigger_stroke_idx < strokes.len());
    }
    assert_eq!((ts[0].stroke_idx, ts[0].end_stroke_idx, ts[0].trigger_stroke_idx), (0, 2, 3));
    assert_eq!((ts[0].a_high, ts[0].a_low), (40, 10));
}

#[test]
fn step_line_carries_the_latest_point() {
    let ps = vec![bp(10, 1), bp(30, 1), bp(20, 4)];
    let line = step_line(&ps, 6);
    assert_eq!(line, vec![(1, 30), (2, 30), (3, 30), (4, 20), (5, 20)]);
}

#[test]
fn resolve_end_point_of_a_big_segment() {
    let strokes = vec![st(10, 20, 0, 5, true), st(20, 15, 5, 9, false)];
    let segs = vec![(0, 0, true), (1, 1, false)];
    let bigs = vec![(0, 1, true)];
    assert_eq!(resolve_sup_end_point(0, &bigs, &segs, &strokes), Some((9, 15)));
    assert_eq!(resolve_sup_end_point(1, &bigs, &segs, &strokes), None);
    let bad = vec![(0, 7, true)];
    assert_eq!(resolve_sup_end_point(0, &bad, &segs, &strokes), None);
}

#[test]
fn superior_equals_big_with_one_stroke_per_segment() {
    let strokes = vec![
        st(100, 110, 0, 2, true),
        st(110, 115, 3, 5, true),
        st(115, 105, 6, 8, false),
        st(105, 113, 9, 11, true),
        st(113, 114, 12, 14, true),
        st(114, 107, 15, 17, false),
        st(107, 106, 18, 20, false),
    ];
    let segs: Vec<(usize, usize, bool)> = (0..strokes.len()).map(|i| (i, i, strokes[i].is_up)).collect();
    let big = chanlun_lean_lib::process_big_segments(&strokes, &segs);
    let sup = chanlun_lean_lib::process_superior_segments(&strokes, &segs, &segs);
    assert_eq!(big, sup);
}

#[test]
fn case3_events_start_segments_of_their_direction() {
    let (highs, lows) = zigzag();
    let p = ChanlunPipeline::new(highs, lows);
    let s = &p.strokes;
    for (c3, c4) in [(true, true), (true, false), (false, true), (false, false)] {
        let ev = collect_segment_case3_events_with_cases(s, c3, c4);
        let sg = process_segments_with_cases(s, c3, c4);
        if !c3 {
            assert!(ev.is_empty());
        }
        for k in 0..ev.len() {
            let (j, b, e, u) = ev[k];
            assert!(b <= e && e < j && j < s.len());
            assert_eq!(s[j].is_up, u);
            assert_eq!(s[b].is_up, !u);
            assert!(sg.iter().any(|g| g.0 == j && g.2 == u));
            if k + 1 < ev.len() {
                assert!(j < ev[k + 1].0);
            }
        }
        let sev = collect_superior_case3_events_with_cases(s, &p.segments, &p.big_segments, c3, c4);
        let sp = process_superior_segments_with_cases(s, &p.segments, &p.big_segments, c3, c4);
        if p.big_segments.len() < 2 || !c3 {
            assert!(sev.is_empty());
        }
        for (j, b, e, u) in sev {
            assert!(b <= e && e < j && j < p.big_segments.len());
            assert_eq!(p.big_segments[j].2, u);
            assert_eq!(p.big_segments[b].2, !u);
            assert!(sp.iter().any(|g| g.0 == j && g.2 == u));
        }
    }
}

#[test]
fn no_case3_events_below_two_strokes_or_with_case3_off() {
    let one = vec![st(10, 20, 0, 4, true)];
    assert!(collect_segment_case3_events_with_cases(&one, true, true).is_empty());
    let (highs, lows) = zigzag();
    let p = ChanlunPipeline::new(highs, lows);
    assert!(collect_segment_case3_events_with_cases(&p.strokes, false, true).is_empty());
}

#[test]
fn turn_signals_are_well_formed_and_ignore_bar_prices() {
    let (highs, lows) = zigzag();
    let p = ChanlunPipeline::new(highs.clone(), lows.clone());
    let ts = detect_turn_signals(&p.strokes, &p.segments, &highs, &lows);
    let other_highs = vec![0i64; 3];
    let other_lows = vec![0i64; 5];
    assert_eq!(ts, detect_turn_signals(&p.strokes, &p.segments, &other_highs, &other_lows));
    for t in &ts {
        assert!(t.stroke_idx <= t.end_stroke_idx && t.end_stroke_idx < t.trigger_stroke_idx);
        assert!(t.trigger_stroke_idx < p.strokes.len());
        assert_eq!(t.is_turn_short, !p.strokes[t.trigger_stroke_idx].is_up);
        assert!(t.a_low <= t.a_high);
    }
}

#[test]
fn lower_case1_mirrors_upper_case1() {
    let (highs, lows) = zigzag();
    let p = ChanlunPipeline::new(highs, lows);
    let ff = &p.final_fractals;
    let neg: Vec<Fractal> = ff.iter().map(|f| Fractal { price: -f.price, is_top: !f.is_top, ..*f }).collect();
    let (bl, dl) = calc_lower_band_case1(ff);
    let (bu, ul) = calc_upper_band_case1(&neg);
    let mirrored: Vec<BandPoint> = bu.iter().map(|q| bp(-q.value, q.bar_index)).collect();
    assert_eq!(bl, mirrored);
    let legs: Vec<StrokeForTracking> =
        ul.iter().map(|t| StrokeForTracking { high: -t.low, low: -t.high, bar_index: t.bar_index }).collect();
    assert_eq!(dl, legs);
    let small = vec![fr(30, true, 2), fr(10, false, 5), fr(25, true, 9), fr(12, false, 13), fr(20, true, 17), fr(14, false, 21)];
    let small_neg: Vec<Fractal> = small.iter().map(|f| Fractal { price: -f.price, is_top: !f.is_top, ..*f }).collect();
    let (sl, _) = calc_lower_band_case1(&small);
    let (su, _) = calc_upper_band_case1(&small_neg);
    assert_eq!(sl, su.iter().map(|q| bp(-q.value, q.bar_index)).collect::<Vec<_>>());
}

#[test]
fn stroke_chain_keeps_the_input_order() {
    let (highs, lows) = zigzag();
    let valid = filter_fractals(&identify_fractals(&process_merged_candles(&highs, &lows)));
    for c3 in [true, false] {
        let chain = process_strokes_fractals(&valid, c3, 4);
        let mut pos = 0usize;
        for f in &chain {
            while pos < valid.len() && valid[pos] != *f {
                pos += 1;
            }
            assert!(pos < valid.len());
            pos += 1;
        }
    }
}
