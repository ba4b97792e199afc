use chanlun_lean_lib::build_strokes;
use chanlun_lean_lib::filter_fractals;
use chanlun_lean_lib::identify_fractals;
use chanlun_lean_lib::process_merged_candles;
use chanlun_lean_lib::process_segments;
use chanlun_lean_lib::process_strokes_fractals;
use chanlun_lean_lib::ChanlunPipeline;

/// Price in ticks of 1/10000.
fn p(v: f64) -> i64 {
    (v * 10000.0).round() as i64
}

fn ticks(v: &[f64]) -> Vec<i64> {
    v.iter().map(|&x| p(x)).collect()
}

/// A trend then a range, 50 bars.
fn test_ohlc() -> (Vec<i64>, Vec<i64>) {
    let highs = vec![
        10.0, 12.0, 11.0, 13.0, 12.5, 14.0, 15.0, 14.5, 16.0, 15.5,
        17.0, 16.0, 18.0, 17.5, 19.0, 18.0, 20.0, 19.0, 21.0, 20.5,
        20.0, 19.0, 18.5, 19.5, 18.0, 17.0, 16.5, 17.5, 16.0, 15.0,
        15.5, 16.5, 15.0, 14.0, 14.5, 15.5, 16.0, 15.0, 14.0, 13.5,
        14.0, 15.0, 16.0, 15.5, 14.0, 13.0, 14.5, 15.5, 14.0, 13.0,
    ];
    let lows = vec![
        8.0,  9.0,  7.0,  10.0, 8.5,  11.0, 12.0, 11.5, 13.0, 12.0,
        14.0, 13.0, 15.0, 14.0, 16.0, 15.0, 17.0, 16.0, 18.0, 17.5,
        17.0, 16.0, 15.5, 16.5, 15.0, 14.0, 13.5, 14.5, 13.0, 12.0,
        12.5, 13.5, 12.0, 11.0, 11.5, 12.5, 13.0, 12.0, 11.0, 10.5,
        11.0, 12.0, 13.0, 12.5, 11.0, 10.0, 11.5, 12.5, 11.0, 10.0,
    ];
    (ticks(&highs), ticks(&lows))
}

/// Four waves (up, down, up, down), 95 bars.
fn synth_wave_4band() -> (Vec<i64>, Vec<i64>) {
    let mut highs: Vec<f64> = Vec::new();
    let mut lows: Vec<f64> = Vec::new();
    let base = 100.0;
    for i in 0..20 {
        highs.push(base + i as f64 * 0.5 + 2.0);
        lows.push(base + i as f64 * 0.5 - 2.0);
    }
    for i in 0..25 {
        let q = base + 10.0 - i as f64 * 0.4;
        highs.push(q + 2.0);
        lows.push(q - 2.0);
    }
    for i in 0..25 {
        let q = base + i as f64 * 0.4;
        highs.push(q + 2.0);
        lows.push(q - 2.0);
    }
    for i in 0..25 {
        let q = base + 10.0 - i as f64 * 0.4;
        highs.push(q + 2.0);
        lows.push(q - 2.0);
    }
    (ticks(&highs), ticks(&lows))
}

/// Short alternating moves, 13 bars.
fn synth_simple_alternating() -> (Vec<i64>, Vec<i64>) {
    let mut highs: Vec<f64> = Vec::new();
    let mut lows: Vec<f64> = Vec::new();
    let base = 100.0;
    for i in 0..5 {
        highs.push(base + i as f64 * 0.035);
        lows.push(base + i as f64 * 0.030 - 0.02);
    }
    for i in 0..5 {
        highs.push(base + 0.175 - i as f64 * 0.018);
        lows.push(base + 0.15 - i as f64 * 0.020 - 0.01);
    }
    for i in 0..3 {
        highs.push(base + 0.085 + i as f64 * 0.045);
        lows.push(base + 0.05 + i as f64 * 0.040);
    }
    (ticks(&highs), ticks(&lows))
}

#[test]
fn compare_fractal_output() {
    let (highs, lows) = test_ohlc();
    let merged = process_merged_candles(&highs, &lows);
    let points = identify_fractals(&merged);
    let valid = filter_fractals(&points);
    let ff = process_strokes_fractals(&valid, true, 4);
    let strokes = build_strokes(&ff);
    let segs = process_segments(&strokes);
    for (si, ei, _) in &segs {
        assert!(*si < strokes.len() && *ei < strokes.len());
    }
    assert!(merged.len() > 0);
    assert!(valid.len() > 0);
    assert!(ff.len() > 0);
    assert!(strokes.len() > 0);
}

#[test]
fn test_pipeline_stats() {
    let (highs, lows) = test_ohlc();
    let pipeline = ChanlunPipeline::new(highs, lows);
    let stats = pipeline.stats();
    assert!(stats.bars == 50);
    assert!(stats.merged >= 1);
    assert!(stats.strokes >= 1);
}

#[test]
fn test_pipeline_4band_baseline() {
    let (highs, lows) = synth_wave_4band();
    let pipeline = ChanlunPipeline::new(highs, lows);
    let ff = &pipeline.final_fractals;
    let strokes = &pipeline.strokes;
    assert!(!ff.is_empty(), "should have fractals for 4-band wave data");
    assert!(!strokes.is_empty(), "should have strokes");
    assert_eq!(strokes.len() + 1, ff.len(), "N strokes should come from N+1 fractals");
    for i in 1..ff.len() {
        assert_ne!(ff[i - 1].is_top, ff[i].is_top, "fractals must alternate at {}", i);
    }
    for (i, s) in strokes.iter().enumerate() {
        let f_start = &ff[i];
        let f_end = &ff[i + 1];
        assert_eq!(s.start_bar, f_start.bar_index, "stroke[{}] start_bar mismatch", i);
        assert_eq!(s.end_bar, f_end.bar_index, "stroke[{}] end_bar mismatch", i);
        let expected_is_up = !f_start.is_top && f_end.is_top;
        assert_eq!(s.is_up, expected_is_up, "stroke[{}] direction mismatch", i);
    }
    for s in strokes {
        assert!(s.start_bar < s.end_bar, "stroke must go forward: {} -> {}", s.start_bar, s.end_bar);
    }
}

#[test]
fn test_pipeline_simple_baseline() {
    let (highs, lows) = synth_simple_alternating();
    let pipeline = ChanlunPipeline::new(highs, lows);
    assert!(!pipeline.strokes.is_empty(), "should produce at least one stroke for alternating data");
}

#[test]
fn test_cross_dll_strokes_consistency() {
    let (highs, lows) = synth_wave_4band();
    let baseline = ChanlunPipeline::new(highs.clone(), lows.clone());
    assert!(!baseline.strokes.is_empty(), "baseline strokes must be non-empty");
}

#[test]
fn test_cross_dll_segments_consistency() {
    let (highs, lows) = synth_wave_4band();
    let baseline = ChanlunPipeline::new(highs, lows);
    for (si, ei, _) in &baseline.segments {
        assert!(*si <= *ei && *ei < baseline.strokes.len());
    }
}

#[test]
fn test_cross_dll_bigsegments_consistency() {
    let (highs, lows) = synth_wave_4band();
    let baseline = ChanlunPipeline::new(highs, lows);
    for (si, ei, _) in &baseline.big_segments {
        assert!(*si <= *ei && *ei < baseline.segments.len());
    }
}

#[test]
fn test_pipeline_idempotent() {
    let (highs, lows) = synth_wave_4band();
    let p1 = ChanlunPipeline::new(highs.clone(), lows.clone());
    let p2 = ChanlunPipeline::new(highs.clone(), lows.clone());
    assert_eq!(p1.final_fractals.len(), p2.final_fractals.len());
    for (i, (f1, f2)) in p1.final_fractals.iter().zip(p2.final_fractals.iter()).enumerate() {
        assert_eq!(f1.bar_index, f2.bar_index, "fractal[{}] bar_index", i);
        assert_eq!(f1.is_top, f2.is_top, "fractal[{}] is_top", i);
        assert!((f1.price - f2.price).abs() < p(0.001), "fractal[{}] price", i);
    }
    assert_eq!(p1.strokes.len(), p2.strokes.len());
    for (i, (s1, s2)) in p1.strokes.iter().zip(p2.strokes.iter()).enumerate() {
        assert_eq!(s1.start_bar, s2.start_bar, "stroke[{}] start_bar", i);
        assert_eq!(s1.end_bar, s2.end_bar, "stroke[{}] end_bar", i);
        assert_eq!(s1.is_up, s2.is_up, "stroke[{}] is_up", i);
        assert!((s1.start_price - s2.start_price).abs() < p(0.001), "stroke[{}] start_price", i);
        assert!((s1.end_price - s2.end_price).abs() < p(0.001), "stroke[{}] end_price", i);
    }
    assert_eq!(p1.segments, p2.segments);
    assert_eq!(p1.big_segments, p2.big_segments);
}

#[test]
fn test_e2e_fractal_pipeline() {
    let (highs, lows) = synth_wave_4band();
    let pipeline = ChanlunPipeline::new(highs, lows);
    let vf = &pipeline.valid_fractals;
    assert!(vf.len() >= 2, "should have at least 2 valid fractals, got {}", vf.len());
    for i in 1..vf.len() {
        assert_ne!(vf[i - 1].is_top, vf[i].is_top, "fractals must alternate direction");
    }
    for f in vf {
        assert!(f.price >= p(85.0) && f.price <= p(115.0), "fractal price {} out of range", f.price);
    }
}
