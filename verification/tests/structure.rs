use chanlun_lean_lib::build_strokes;
use chanlun_lean_lib::check_down_stroke_case4;
use chanlun_lean_lib::check_up_stroke_case4;
use chanlun_lean_lib::detect_second_buy_markers;
use chanlun_lean_lib::detect_second_sell_markers;
use chanlun_lean_lib::process_big_segments;
use chanlun_lean_lib::process_segments;
use chanlun_lean_lib::process_segments_with_cases;
use chanlun_lean_lib::process_strokes_fractals;
use chanlun_lean_lib::process_strokes_fractals_with_cases;
use chanlun_lean_lib::process_superior_segments;
use chanlun_lean_lib::ChanlunPipeline;
use chanlun_lean_lib::Fractal;
use chanlun_lean_lib::SecondMarker;
use chanlun_lean_lib::Stroke;
use chanlun_lean_lib::StrokeCases;

/// Price in ticks of 1/10000.
fn p(v: f64) -> i64 {
    (v * 10000.0).round() as i64
}

#[test]
fn test_full_pipeline() {
    let highs = vec![p(10.0), p(12.0), p(11.0), p(13.0), p(12.0), p(14.0), p(13.0), p(15.0), p(14.0), p(16.0)];
    let lows  = vec![ p(8.0),  p(9.0),  p(7.0), p(10.0),  p(8.0), p(11.0),  p(9.0), p(12.0), p(10.0), p(13.0)];
    let pipeline = ChanlunPipeline::new(highs, lows);
    let stats = pipeline.stats();
    assert!(stats.bars == 10);
    assert!(stats.merged >= 1);
    // 只要有输出就说明管线能跑
}

#[test]
fn test_second_buy_markers() {
    // 二买 (向下高级段反转后的回试结构):
    // 向下高级段 B=笔3 终点 100; A=笔2 终点 110; C=笔4 终点 112(>A); D=笔5 终点 104(>B)
    // 预期: 1 个标记 (文字"二买"), 画在 D 终点 (笔5 的 bar, 104)
    let strokes = vec![
        Stroke { start_price: p(100.0), end_price: p(110.0), start_bar: 0, end_bar: 2, is_up: true },
        Stroke { start_price: p(110.0), end_price: p(100.0), start_bar: 3, end_bar: 5, is_up: false },
        Stroke { start_price: p(100.0), end_price: p(110.0), start_bar: 6, end_bar: 8, is_up: true },
        Stroke { start_price: p(110.0), end_price: p(100.0), start_bar: 9, end_bar: 11, is_up: false },
        Stroke { start_price: p(100.0), end_price: p(112.0), start_bar: 12, end_bar: 14, is_up: true },
        Stroke { start_price: p(112.0), end_price: p(104.0), start_bar: 15, end_bar: 17, is_up: false },
    ];
    let segs: Vec<(usize, usize, bool)> = vec![(0,0,true),(1,1,false),(2,2,true),(3,3,false),(4,4,true),(5,5,false)];
    let bigs: Vec<(usize, usize, bool)> = segs.clone();
    let sups: Vec<(usize, usize, bool)> = segs.clone();

    let markers = detect_second_buy_markers(&strokes, &segs, &bigs, &sups);
    assert_eq!(markers.len(), 1, "markers={:?}", markers);
    assert_eq!(markers[0], SecondMarker { bar_index: 17, price: p(104.0), is_buy: true });
}

#[test]
fn test_second_buy_c_not_higher_than_a() {
    // C(108) <= A(110) → 不标记
    let strokes = vec![
        Stroke { start_price: p(100.0), end_price: p(110.0), start_bar: 0, end_bar: 2, is_up: true },
        Stroke { start_price: p(110.0), end_price: p(100.0), start_bar: 3, end_bar: 5, is_up: false },
        Stroke { start_price: p(100.0), end_price: p(110.0), start_bar: 6, end_bar: 8, is_up: true },
        Stroke { start_price: p(110.0), end_price: p(100.0), start_bar: 9, end_bar: 11, is_up: false },
        Stroke { start_price: p(100.0), end_price: p(108.0), start_bar: 12, end_bar: 14, is_up: true },
        Stroke { start_price: p(108.0), end_price: p(104.0), start_bar: 15, end_bar: 17, is_up: false },
    ];
    let segs: Vec<(usize, usize, bool)> = vec![(0,0,true),(1,1,false),(2,2,true),(3,3,false),(4,4,true),(5,5,false)];
    let bigs: Vec<(usize, usize, bool)> = segs.clone();
    let sups: Vec<(usize, usize, bool)> = segs.clone();

    let markers = detect_second_buy_markers(&strokes, &segs, &bigs, &sups);
    assert!(markers.is_empty(), "markers={:?}", markers);
}

#[test]
fn test_second_buy_d_breaks_b() {
    // D(98) <= B(100) 破位 → 不标记
    let strokes = vec![
        Stroke { start_price: p(100.0), end_price: p(110.0), start_bar: 0, end_bar: 2, is_up: true },
        Stroke { start_price: p(110.0), end_price: p(100.0), start_bar: 3, end_bar: 5, is_up: false },
        Stroke { start_price: p(100.0), end_price: p(110.0), start_bar: 6, end_bar: 8, is_up: true },
        Stroke { start_price: p(110.0), end_price: p(100.0), start_bar: 9, end_bar: 11, is_up: false },
        Stroke { start_price: p(100.0), end_price: p(112.0), start_bar: 12, end_bar: 14, is_up: true },
        Stroke { start_price: p(112.0), end_price: p(98.0), start_bar: 15, end_bar: 17, is_up: false },
    ];
    let segs: Vec<(usize, usize, bool)> = vec![(0,0,true),(1,1,false),(2,2,true),(3,3,false),(4,4,true),(5,5,false)];
    let bigs: Vec<(usize, usize, bool)> = segs.clone();
    let sups: Vec<(usize, usize, bool)> = segs.clone();

    let markers = detect_second_buy_markers(&strokes, &segs, &bigs, &sups);
    assert!(markers.is_empty(), "markers={:?}", markers);
}

#[test]
fn test_second_buy_multi_big_segments() {
    // 真实结构: 向下高级段 [D1 U1 D2] (B=D2 终点 100) + 向上高级段 [U3 D1' U4]
    // A=U1 终点 110, C=U3 终点 112(>A), D=D1' 终点 104(>B) → 二买画在 D 终点
    let strokes = vec![
        Stroke { start_price: p(120.0), end_price: p(100.0), start_bar: 0, end_bar: 5, is_up: false },
        Stroke { start_price: p(100.0), end_price: p(110.0), start_bar: 6, end_bar: 11, is_up: true },
        Stroke { start_price: p(110.0), end_price: p(100.0), start_bar: 12, end_bar: 17, is_up: false }, // B
        Stroke { start_price: p(100.0), end_price: p(112.0), start_bar: 18, end_bar: 23, is_up: true }, // C
        Stroke { start_price: p(112.0), end_price: p(104.0), start_bar: 24, end_bar: 29, is_up: false }, // D
        Stroke { start_price: p(104.0), end_price: p(108.0), start_bar: 30, end_bar: 35, is_up: true },
        Stroke { start_price: p(108.0), end_price: p(100.0), start_bar: 36, end_bar: 41, is_up: false }, // 第3高级段
    ];
    let segs: Vec<(usize, usize, bool)> = vec![(0,0,false),(1,1,true),(2,2,false),(3,3,true),(4,4,false),(5,5,true),(6,6,false)];
    let bigs: Vec<(usize, usize, bool)> = segs.clone();
    let sups: Vec<(usize, usize, bool)> = vec![(0, 2, false), (3, 5, true), (6, 6, false)];

    let markers = detect_second_buy_markers(&strokes, &segs, &bigs, &sups);
    assert_eq!(markers.len(), 1, "markers={:?}", markers);
    assert_eq!(markers[0], SecondMarker { bar_index: 29, price: p(104.0), is_buy: true });
}

#[test]
fn test_second_sell_markers() {
    // 二卖镜像: 向上高级段 B=笔1 终点 110; A=笔0 终点 100; C=笔2 终点 96(<A); D=笔3 终点 104(<B)
    // 预期: 1 个标记 (文字"二卖"), 画在 D 终点 (笔3 的 bar, 104)
    let strokes = vec![
        Stroke { start_price: p(110.0), end_price: p(100.0), start_bar: 0, end_bar: 5, is_up: false },
        Stroke { start_price: p(100.0), end_price: p(110.0), start_bar: 6, end_bar: 11, is_up: true },
        Stroke { start_price: p(110.0), end_price: p(96.0), start_bar: 12, end_bar: 17, is_up: false },
        Stroke { start_price: p(96.0), end_price: p(104.0), start_bar: 18, end_bar: 23, is_up: true },
        Stroke { start_price: p(104.0), end_price: p(98.0), start_bar: 24, end_bar: 29, is_up: false },
        Stroke { start_price: p(98.0), end_price: p(103.0), start_bar: 30, end_bar: 35, is_up: true },
    ];
    let segs: Vec<(usize, usize, bool)> = vec![(0,0,false),(1,1,true),(2,2,false),(3,3,true),(4,4,false),(5,5,true)];
    let bigs: Vec<(usize, usize, bool)> = segs.clone();
    let sups: Vec<(usize, usize, bool)> = segs.clone();

    let markers = detect_second_sell_markers(&strokes, &segs, &bigs, &sups);
    assert_eq!(markers.len(), 1, "markers={:?}", markers);
    assert_eq!(markers[0], SecondMarker { bar_index: 23, price: p(104.0), is_buy: false });
}

#[test]
fn test_second_sell_d_breaks_b() {
    // D(112) >= B(110) 破位 → 不标记
    let strokes = vec![
        Stroke { start_price: p(110.0), end_price: p(100.0), start_bar: 0, end_bar: 5, is_up: false },
        Stroke { start_price: p(100.0), end_price: p(110.0), start_bar: 6, end_bar: 11, is_up: true },
        Stroke { start_price: p(110.0), end_price: p(96.0), start_bar: 12, end_bar: 17, is_up: false },
        Stroke { start_price: p(96.0), end_price: p(112.0), start_bar: 18, end_bar: 23, is_up: true },
    ];
    let segs: Vec<(usize, usize, bool)> = vec![(0,0,false),(1,1,true),(2,2,false),(3,3,true)];
    let bigs: Vec<(usize, usize, bool)> = segs.clone();
    let sups: Vec<(usize, usize, bool)> = segs.clone();

    let markers = detect_second_sell_markers(&strokes, &segs, &bigs, &sups);
    assert!(markers.is_empty(), "markers={:?}", markers);
}

#[test]
fn test_second_sell_multi_big_segments() {
    // 真实结构镜像: 向上高级段 [U1 D1 U2] (B=U2 终点 110) + 向下高级段 [D3 U1' D4]
    // A=D1 终点 100, C=D3 终点 96(<A), D=U1' 终点 104(<B) → 二卖画在 D 终点
    let strokes = vec![
        Stroke { start_price: p(90.0), end_price: p(115.0), start_bar: 0, end_bar: 5, is_up: true },
        Stroke { start_price: p(115.0), end_price: p(100.0), start_bar: 6, end_bar: 11, is_up: false },
        Stroke { start_price: p(100.0), end_price: p(110.0), start_bar: 12, end_bar: 17, is_up: true }, // B
        Stroke { start_price: p(110.0), end_price: p(96.0), start_bar: 18, end_bar: 23, is_up: false }, // C
        Stroke { start_price: p(96.0), end_price: p(104.0), start_bar: 24, end_bar: 29, is_up: true }, // D
        Stroke { start_price: p(104.0), end_price: p(98.0), start_bar: 30, end_bar: 35, is_up: false },
        Stroke { start_price: p(98.0), end_price: p(110.0), start_bar: 36, end_bar: 41, is_up: true }, // 第3高级段
    ];
    let segs: Vec<(usize, usize, bool)> = vec![(0,0,true),(1,1,false),(2,2,true),(3,3,false),(4,4,true),(5,5,false),(6,6,true)];
    let bigs: Vec<(usize, usize, bool)> = segs.clone();
    let sups: Vec<(usize, usize, bool)> = vec![(0, 2, true), (3, 5, false), (6, 6, true)];

    let markers = detect_second_sell_markers(&strokes, &segs, &bigs, &sups);
    assert_eq!(markers.len(), 1, "markers={:?}", markers);
    assert_eq!(markers[0], SecondMarker { bar_index: 29, price: p(104.0), is_buy: false });
}

#[test]
fn test_second_insufficient() {
    // sups < 3 → 空
    let strokes = vec![
        Stroke { start_price: p(100.0), end_price: p(112.0), start_bar: 0, end_bar: 2, is_up: true },
    ];
    let segs: Vec<(usize, usize, bool)> = vec![(0,0,true)];
    let bigs: Vec<(usize, usize, bool)> = segs.clone();
    let sups: Vec<(usize, usize, bool)> = segs.clone();
    assert!(detect_second_buy_markers(&strokes, &segs, &bigs, &sups).is_empty());
    assert!(detect_second_sell_markers(&strokes, &segs, &bigs, &sups).is_empty());
}

#[test]
fn test_superior_segments_down_first() {
    // 回归: 下跌行情中向下高级段必须可构建 (首段允许向下)
    // 笔序列: 反弹1(110→115) 下跌1(115→100) 反弹2(100→103) 下跌2(103→95) 反弹3(95→97) 下跌3(97→90)
    // 投影后: up(110→115) down(115→100) up(100→103) down(103→95) up(95→97) down(97→90)
    // up@0 Case2 不成立(反弹未创新高) → down@1 Case3 不成立(无前 Case2 up 段) → 首段兜底仅 Case2
    // 期望: 首段向下 (1,3,false) [down1→down2 Case2] + 端点延伸 down3 → (1,5,false)
    let strokes = vec![
        Stroke { start_price: p(110.0), end_price: p(115.0), start_bar: 0, end_bar: 2, is_up: true },
        Stroke { start_price: p(115.0), end_price: p(100.0), start_bar: 3, end_bar: 5, is_up: false },
        Stroke { start_price: p(100.0), end_price: p(103.0), start_bar: 6, end_bar: 8, is_up: true },
        Stroke { start_price: p(103.0), end_price: p(95.0), start_bar: 9, end_bar: 11, is_up: false },
        Stroke { start_price: p(95.0), end_price: p(97.0), start_bar: 12, end_bar: 14, is_up: true },
        Stroke { start_price: p(97.0), end_price: p(90.0), start_bar: 15, end_bar: 17, is_up: false },
    ];
    let segs: Vec<(usize, usize, bool)> = vec![(0,0,true),(1,1,false),(2,2,true),(3,3,false),(4,4,true),(5,5,false)];
    let bigs: Vec<(usize, usize, bool)> = segs.clone();

    let sups = process_superior_segments(&strokes, &segs, &bigs);
    assert_eq!(sups, vec![(1usize, 5usize, false)], "sups={:?}", sups);
}

#[test]
fn test_superior_segments_down_only() {
    // 纯下跌 (无反弹段): 向下高级段必须可构建
    // 笔: 下1(120→105) 下2(105→95) 下3(95→88), 全部向下
    // 期望: 首段 (0,1,false) [下1→下2 Case2] + 端点延伸 下3 → (0,2,false)
    let strokes = vec![
        Stroke { start_price: p(120.0), end_price: p(105.0), start_bar: 0, end_bar: 2, is_up: false },
        Stroke { start_price: p(105.0), end_price: p(95.0), start_bar: 3, end_bar: 5, is_up: false },
        Stroke { start_price: p(95.0), end_price: p(88.0), start_bar: 6, end_bar: 8, is_up: false },
    ];
    let segs: Vec<(usize, usize, bool)> = vec![(0,0,false),(1,1,false),(2,2,false)];
    let bigs: Vec<(usize, usize, bool)> = segs.clone();

    let sups = process_superior_segments(&strokes, &segs, &bigs);
    assert_eq!(sups, vec![(0usize, 2usize, false)], "sups={:?}", sups);
}

#[test]
fn test_superior_segments_up_case4() {
    // 高级段 Case4 (三分支行为一致): 单向上大段 A 包含
    // 完整的反向(下)+同向(上)大段对 → A 修正为高级段 (endIdx = 自身)
    // 序列: up(110→120) down(120→112) down(112→111) up(111→116) up(116→119)
    // down@1→down@2 Case2 (低点连创新低), up@3→up@4 Case2 (低点抬高+高点创新高)
    // 反向极值 111 > 110 (未破 A 起点), 同向极值 119 <= 120 (未破 A 终点) → Case4 成立
    // 期望: A 单大段修正为高级段 (0,0,true); 其后 D1→D2 Case2 → (1,2,false),
    // U1→U2 Case2 → (3,4,true) (Case4 修正后剩余大段正常按 Case2 建段)
    let strokes = vec![
        Stroke { start_price: p(110.0), end_price: p(120.0), start_bar: 0, end_bar: 2, is_up: true },
        Stroke { start_price: p(120.0), end_price: p(112.0), start_bar: 3, end_bar: 5, is_up: false },
        Stroke { start_price: p(112.0), end_price: p(111.0), start_bar: 6, end_bar: 8, is_up: false },
        Stroke { start_price: p(111.0), end_price: p(116.0), start_bar: 9, end_bar: 11, is_up: true },
        Stroke { start_price: p(116.0), end_price: p(119.0), start_bar: 12, end_bar: 14, is_up: true },
    ];
    let segs: Vec<(usize, usize, bool)> = vec![(0,0,true),(1,1,false),(2,2,false),(3,3,true),(4,4,true)];
    let bigs: Vec<(usize, usize, bool)> = segs.clone();

    let sups = process_superior_segments(&strokes, &segs, &bigs);
    assert_eq!(sups, vec![(0usize, 0usize, true), (1usize, 2usize, false), (3usize, 4usize, true)], "sups={:?}", sups);
}

#[test]
fn test_superior_segments_down_case4_first() {
    // 高级段 Case4 首段向下兜底分支: 首条向下大段 A 含完整
    // 反向(上)+同向(下)大段对 → 同样修正为高级段 (与分支1/2行为一致)
    // 序列: down(120→110) up(110→118) up(118→119) down(119→112) down(112→111)
    // up@1→up@2 Case2, down@3→down@4 Case2; 反向极值 119 < 120, 同向极值 111 >= 110
    // 期望: 首段 (0,0,false) 走 Case4; 其后 up@1 Case2 → (1,2,true);
    // down@3 Case2 → (3,4,false) (D2 已是段内部件, 无端点延伸)
    let strokes = vec![
        Stroke { start_price: p(120.0), end_price: p(110.0), start_bar: 0, end_bar: 2, is_up: false },
        Stroke { start_price: p(110.0), end_price: p(118.0), start_bar: 3, end_bar: 5, is_up: true },
        Stroke { start_price: p(118.0), end_price: p(119.0), start_bar: 6, end_bar: 8, is_up: true },
        Stroke { start_price: p(119.0), end_price: p(112.0), start_bar: 9, end_bar: 11, is_up: false },
        Stroke { start_price: p(112.0), end_price: p(111.0), start_bar: 12, end_bar: 14, is_up: false },
    ];
    let segs: Vec<(usize, usize, bool)> = vec![(0,0,false),(1,1,true),(2,2,true),(3,3,false),(4,4,false)];
    let bigs: Vec<(usize, usize, bool)> = segs.clone();

    let sups = process_superior_segments(&strokes, &segs, &bigs);
    assert_eq!(sups, vec![(0usize, 0usize, false), (1usize, 2usize, true), (3usize, 4usize, false)], "sups={:?}", sups);
}

#[test]
fn test_superior_segments_down_case4() {
    // 高级段 Case4 非首段向下分支: 首段向上建立后, 单向下大段 B
    // 含完整反向(上)+同向(下)大段对 → B 修正为高级段
    // 序列: up(100→110) up(110→115) down(115→105) up(105→113) up(113→114) down(114→107) down(107→106)
    // 首段 up@0 Case2 → (0,1,true); B 反向极值 114 < 115, 同向极值 106 >= 105 → Case4 成立
    // 期望: (0,1,true) (2,2,false) (3,4,true) (5,6,false)
    let strokes = vec![
        Stroke { start_price: p(100.0), end_price: p(110.0), start_bar: 0, end_bar: 2, is_up: true },
        Stroke { start_price: p(110.0), end_price: p(115.0), start_bar: 3, end_bar: 5, is_up: true },
        Stroke { start_price: p(115.0), end_price: p(105.0), start_bar: 6, end_bar: 8, is_up: false },
        Stroke { start_price: p(105.0), end_price: p(113.0), start_bar: 9, end_bar: 11, is_up: true },
        Stroke { start_price: p(113.0), end_price: p(114.0), start_bar: 12, end_bar: 14, is_up: true },
        Stroke { start_price: p(114.0), end_price: p(107.0), start_bar: 15, end_bar: 17, is_up: false },
        Stroke { start_price: p(107.0), end_price: p(106.0), start_bar: 18, end_bar: 20, is_up: false },
    ];
    let segs: Vec<(usize, usize, bool)> = vec![(0,0,true),(1,1,true),(2,2,false),(3,3,true),(4,4,true),(5,5,false),(6,6,false)];
    let bigs: Vec<(usize, usize, bool)> = segs.clone();

    let sups = process_superior_segments(&strokes, &segs, &bigs);
    assert_eq!(sups, vec![(0usize, 1usize, true), (2usize, 2usize, false), (3usize, 4usize, true), (5usize, 6usize, false)], "sups={:?}", sups);
}

#[test]
fn test_superior_segments_up_case4_rejected_when_break_high() {
    // 高级段 Case4 否定: 同向大段突破 A 终点 (real_up_high > high_a)
    // → Case4 拒绝; 但突破同时使 A 的 Case2 成立 → 走 Case2 (endIdx = 突破笔)
    // 序列: up(110→120) down(120→112) down(112→111) up(111→116) up(116→121)
    // up@3→up@4 Case2 且 up@4 终点 121 > 120 → A Case2 成立 end=4
    // 期望: (0,4,true) (走 Case2, 非 Case4)
    let strokes = vec![
        Stroke { start_price: p(110.0), end_price: p(120.0), start_bar: 0, end_bar: 2, is_up: true },
        Stroke { start_price: p(120.0), end_price: p(112.0), start_bar: 3, end_bar: 5, is_up: false },
        Stroke { start_price: p(112.0), end_price: p(111.0), start_bar: 6, end_bar: 8, is_up: false },
        Stroke { start_price: p(111.0), end_price: p(116.0), start_bar: 9, end_bar: 11, is_up: true },
        Stroke { start_price: p(116.0), end_price: p(121.0), start_bar: 12, end_bar: 14, is_up: true },
    ];
    let segs: Vec<(usize, usize, bool)> = vec![(0,0,true),(1,1,false),(2,2,false),(3,3,true),(4,4,true)];
    let bigs: Vec<(usize, usize, bool)> = segs.clone();

    let sups = process_superior_segments(&strokes, &segs, &bigs);
    assert_eq!(sups, vec![(0usize, 4usize, true)], "sups={:?}", sups);
}

#[test]
fn test_case3_output_bigseg_and_superior() {
    // 大段/高级段 Case3 正常输出 (线段/大段/高级段三分支一致)
    // 线段/大段层同构首段向下兜底 (初始数据特殊情况) — 三层行为一致.
    // 序列: down(100→90) down(90→85) up(85→105)
    // 线段层: 首段兜底 down@0→down@1 Case2 → (0,1,false); up@2 突破前置 down Case2 段起点 100
    //         → Case3 成立 → (2,2,true)
    // 大段层: 投影复用线段算法 → 同 (0,1,false),(2,2,true)
    // 高级段层: 首段兜底同构 → (0,1,false),(2,2,true)
    let strokes = vec![
        Stroke { start_price: p(100.0), end_price: p(90.0), start_bar: 0, end_bar: 2, is_up: false },
        Stroke { start_price: p(90.0), end_price: p(85.0), start_bar: 3, end_bar: 5, is_up: false },
        Stroke { start_price: p(85.0), end_price: p(105.0), start_bar: 6, end_bar: 8, is_up: true },
    ];
    let segs: Vec<(usize, usize, bool)> = vec![(0,0,false),(1,1,false),(2,2,true)];
    let bigs = segs.clone();

    // 线段层: 首段兜底 Case2 + Case3 输出
    let segs_out = process_segments(&strokes);
    assert_eq!(segs_out, vec![(0usize, 1usize, false), (2usize, 2usize, true)], "segs_out={:?}", segs_out);
    // 大段层: 投影复用 → 同线段层
    let bigs_out = process_big_segments(&strokes, &segs);
    assert_eq!(bigs_out, vec![(0usize, 1usize, false), (2usize, 2usize, true)], "bigs_out={:?}", bigs_out);
    // 高级段层: 首段兜底 Case2 + Case3 输出 (不变)
    let sups_out = process_superior_segments(&strokes, &segs, &bigs);
    assert_eq!(sups_out, vec![(0usize, 1usize, false), (2usize, 2usize, true)], "sups_out={:?}", sups_out);
}

#[test]
fn test_superior_case4_aligns_bigseg_case4() {
    // "大段层" (process_big_segments: 线段→投影→process_segments, 含原生 Case4) 与
    // "高级段层" (process_superior_segments: 大段→投影→C2/C3/C4), 两路径输入等价
    // (segs/bigs 均为恒等映射 → 投影数组 = 原始笔序列).
    // 断言1/2: 首段向上场景两路径输出必须完全一致 → 证明高级段 Case4 挂载与
    // process_segments 原生 Case4 零偏差 (同一函数/同一候选/同一排序/同一推进).
    // 断言3: 首段向下场景差异仅为首段兜底 (有意行为), 后续段仍与大段层一致.
    let mk = |strokes: Vec<Stroke>| {
        let segs: Vec<(usize, usize, bool)> = strokes.iter().enumerate()
            .map(|(i, s)| (i, i, s.is_up)).collect();
        let bigs = segs.clone();
        (strokes, segs, bigs)
    };

    // 场景1: 向上 Case4 (A 单段含 下+上 对, 同 test_superior_segments_up_case4)
    let (s1, segs1, bigs1) = mk(vec![
        Stroke { start_price: p(110.0), end_price: p(120.0), start_bar: 0, end_bar: 2, is_up: true },
        Stroke { start_price: p(120.0), end_price: p(112.0), start_bar: 3, end_bar: 5, is_up: false },
        Stroke { start_price: p(112.0), end_price: p(111.0), start_bar: 6, end_bar: 8, is_up: false },
        Stroke { start_price: p(111.0), end_price: p(116.0), start_bar: 9, end_bar: 11, is_up: true },
        Stroke { start_price: p(116.0), end_price: p(119.0), start_bar: 12, end_bar: 14, is_up: true },
    ]);
    let big1 = process_big_segments(&s1, &segs1);
    let sup1 = process_superior_segments(&s1, &segs1, &bigs1);
    assert_eq!(sup1, big1, "场景1(向上Case4) 两路径不一致: sup1={:?} big1={:?}", sup1, big1);

    // 场景2: 非首段向下 Case4 (B 单段含 上+下 对, 同 test_superior_segments_down_case4)
    let (s2, segs2, bigs2) = mk(vec![
        Stroke { start_price: p(100.0), end_price: p(110.0), start_bar: 0, end_bar: 2, is_up: true },
        Stroke { start_price: p(110.0), end_price: p(115.0), start_bar: 3, end_bar: 5, is_up: true },
        Stroke { start_price: p(115.0), end_price: p(105.0), start_bar: 6, end_bar: 8, is_up: false },
        Stroke { start_price: p(105.0), end_price: p(113.0), start_bar: 9, end_bar: 11, is_up: true },
        Stroke { start_price: p(113.0), end_price: p(114.0), start_bar: 12, end_bar: 14, is_up: true },
        Stroke { start_price: p(114.0), end_price: p(107.0), start_bar: 15, end_bar: 17, is_up: false },
        Stroke { start_price: p(107.0), end_price: p(106.0), start_bar: 18, end_bar: 20, is_up: false },
    ]);
    let big2 = process_big_segments(&s2, &segs2);
    let sup2 = process_superior_segments(&s2, &segs2, &bigs2);
    assert_eq!(sup2, big2, "场景2(向下Case4) 两路径不一致: sup2={:?} big2={:?}", sup2, big2);

    // 场景3: 首段向下 (大段层同构首段兜底后, 两路径输出完全一致)
    let (s3, segs3, bigs3) = mk(vec![
        Stroke { start_price: p(120.0), end_price: p(110.0), start_bar: 0, end_bar: 2, is_up: false },
        Stroke { start_price: p(110.0), end_price: p(118.0), start_bar: 3, end_bar: 5, is_up: true },
        Stroke { start_price: p(118.0), end_price: p(119.0), start_bar: 6, end_bar: 8, is_up: true },
        Stroke { start_price: p(119.0), end_price: p(112.0), start_bar: 9, end_bar: 11, is_up: false },
        Stroke { start_price: p(112.0), end_price: p(111.0), start_bar: 12, end_bar: 14, is_up: false },
    ]);
    let big3 = process_big_segments(&s3, &segs3);
    let sup3 = process_superior_segments(&s3, &segs3, &bigs3);
    assert_eq!(sup3, big3, "场景3(首段向下兜底) 两路径不一致: sup3={:?} big3={:?}", sup3, big3);
    assert_eq!(sup3, vec![(0usize, 0usize, false), (1usize, 2usize, true), (3usize, 4usize, false)], "sup3={:?}", sup3);
}
// ===== 笔Case4 (直接映射线段Case4) =====
fn fx(price: i64, is_top: bool, idx: usize) -> Fractal {
    Fractal { price, is_top, bar_index: idx, merged_index: idx, time: idx }
}

#[test]
fn test_stroke_first_reverse_initial_data_entry() {
    // (初始数据入口·链头前置反向笔): 窗口起点滑动区首个反向
    // (顶/底) 分型满足分型+笔条件 (C1) 即可成为第一笔起点 — 无需其前存在可成笔的
    // 前导分型. 模拟: 起点底分型与首个顶分型相邻过近不成笔,
    // 同向底序列一路新低, 其后的顶分型才成笔.
    // 新行为: 链头前置 (顶→低底) 向下第一笔, 后续链逐位不变.
    let v = vec![
        fx(p(2028.51), false, 3),  // 窗口起点底分型 (滑动区, 被同向替换吸收)
        fx(p(2031.22), true, 4),   // 首个顶分型 → 新链起点
        fx(p(2027.30), false, 6),
        fx(p(2029.91), true, 9),
        fx(p(2019.78), false, 17),
        fx(p(2024.72), true, 19),
        fx(p(2019.66), false, 20), // 同向底极值 (原链起点)
        fx(p(2027.46), true, 34),  // 原第一笔终点
    ];
    let out = process_strokes_fractals(&v, true, 4);
    assert_eq!(out.len(), 3, "out={:?}", out);
    assert!(out[0].is_top && out[0].bar_index == 4, "链头应为首个顶分型: out={:?}", out);
    assert!(!out[1].is_top && out[1].bar_index == 20, "第二点 = 同向底极值: out={:?}", out);
    assert!(out[2].is_top && out[2].bar_index == 34, "后续链不变: out={:?}", out);
    // 第一笔方向 = 向下 (顶4→底20)
    let strokes = build_strokes(&out);
    assert_eq!(strokes.len(), 2);
    assert!(!strokes[0].is_up && strokes[0].start_bar == 4 && strokes[0].end_bar == 20, "s0={:?}", strokes[0]);
    assert!(strokes[1].is_up && strokes[1].start_bar == 20 && strokes[1].end_bar == 34, "s1={:?}", strokes[1]);
}

#[test]
fn test_stroke_first_reverse_no_insert_when_chain_starts_immediately() {
    // 安全回退: 首分型直接成笔 (滑动区为空 → 无反向极值候选) → 链头不插入, 输出零变化
    let v = vec![
        fx(p(90.0), false, 0), fx(p(100.0), true, 5), fx(p(95.0), false, 9),
    ];
    let out = process_strokes_fractals(&v, true, 4);
    assert_eq!(out.len(), 3, "out={:?}", out);
    assert!(!out[0].is_top && out[0].bar_index == 0);
    assert!(out[1].is_top && out[1].bar_index == 5);
    assert!(!out[2].is_top && out[2].bar_index == 9);
}

#[test]
fn test_stroke_case4_up_basic() {
    // 向上候选笔 B0(90)→T1(100) (位于索引1): 其后 (T1→B1)→(T2→B2) 下行连续新低收口于
    // B2(93<94), 再 (B2→T3)→(B3→T4) 上行连续新高收口于 T4(99>98); 两笔整体 (93..99)
    // 包含于 (90,100] (不破90 不超100) → 向上Case4 成立
    let v = vec![
        fx(p(90.0), false, 0), fx(p(100.0), true, 1), fx(p(94.0), false, 2), fx(p(97.0), true, 3),
        fx(p(93.0), false, 4), fx(p(98.0), true, 5), fx(p(94.0), false, 6), fx(p(99.0), true, 7),
    ];
    assert!(check_up_stroke_case4(&v, 1, p(90.0), p(100.0)));
    // 方向不匹配: 同序列走向下Case4 (顶起点/底终点参数反了) → 不成立
    assert!(!check_down_stroke_case4(&v, 1, p(90.0), p(100.0)));
}

#[test]
fn test_stroke_case4_up_rejected() {
    // 否定1: 后两笔突破 A 终点 (T4=101 > 100) → 不包含 → 拒绝
    let v_hi = vec![
        fx(p(90.0), false, 0), fx(p(100.0), true, 1), fx(p(94.0), false, 2), fx(p(97.0), true, 3),
        fx(p(93.0), false, 4), fx(p(98.0), true, 5), fx(p(94.0), false, 6), fx(p(101.0), true, 7),
    ];
    assert!(!check_up_stroke_case4(&v_hi, 1, p(90.0), p(100.0)));
    // 否定2: 后两笔跌破 A 起点 (B2=88 < 90) → 不包含 → 拒绝
    let v_lo = vec![
        fx(p(90.0), false, 0), fx(p(100.0), true, 1), fx(p(94.0), false, 2), fx(p(97.0), true, 3),
        fx(p(88.0), false, 4), fx(p(98.0), true, 5), fx(p(94.0), false, 6), fx(p(99.0), true, 7),
    ];
    assert!(!check_up_stroke_case4(&v_lo, 1, p(90.0), p(100.0)));
}

#[test]
fn test_stroke_case4_down_basic() {
    // 向下候选笔 T0(110)→B1(100) (位于索引1): 其后 (B1→T2)→(B2→T3)→(B3→T4) 上行连续
    // 新高收口于 T4(108>106), 再 (T4→B4)→(T5→B5) 下行连续新低收口于 B5(100.5<101.5);
    // 两笔整体 (100.5..108) 包含于 [100,110) (不破110 不下100) → 向下Case4 成立
    let v = vec![
        fx(p(110.0), true, 0), fx(p(100.0), false, 1), fx(p(107.0), true, 2), fx(p(103.0), false, 3),
        fx(p(106.0), true, 4), fx(p(101.0), false, 5), fx(p(108.0), true, 6), fx(p(101.5), false, 7),
        fx(p(107.0), true, 8), fx(p(100.5), false, 9),
    ];
    assert!(check_down_stroke_case4(&v, 1, p(110.0), p(100.0)));
}

#[test]
fn test_stroke_case4_down_rejected() {
    // 否定1: 反弹突破 A 起点 (T4=110.5 ≥ 110) → 拒绝 (镜像线段向下Case4: 严格 <)
    let v_hi = vec![
        fx(p(110.0), true, 0), fx(p(100.0), false, 1), fx(p(107.0), true, 2), fx(p(103.0), false, 3),
        fx(p(106.0), true, 4), fx(p(101.0), false, 5), fx(p(110.5), true, 6), fx(p(101.5), false, 7),
        fx(p(107.0), true, 8), fx(p(100.5), false, 9),
    ];
    assert!(!check_down_stroke_case4(&v_hi, 1, p(110.0), p(100.0)));
    // 否定2: 下行跌破 A 终点 (B5=98.5 < 100) → 拒绝 (镜像: < 即拒)
    let v_lo = vec![
        fx(p(110.0), true, 0), fx(p(100.0), false, 1), fx(p(107.0), true, 2), fx(p(103.0), false, 3),
        fx(p(106.0), true, 4), fx(p(101.0), false, 5), fx(p(108.0), true, 6), fx(p(99.0), false, 7),
        fx(p(107.0), true, 8), fx(p(98.5), false, 9),
    ];
    assert!(!check_down_stroke_case4(&v_lo, 1, p(110.0), p(100.0)));
}

#[test]
fn test_stroke_case4_no_close_no_fire() {
    // 无收口结构: 下行无连续新低 (B2=96 未低于 B1=94, 且后续无更低底) → 无完整两笔 → 不升格
    // (与线段Case4 需成对 Case2 段同构: 仅相邻对不足以作证)
    let v = vec![
        fx(p(90.0), false, 0), fx(p(100.0), true, 1), fx(p(94.0), false, 2), fx(p(97.0), true, 3),
        fx(p(96.0), false, 4), fx(p(98.0), true, 5),
    ];
    assert!(!check_up_stroke_case4(&v, 1, p(90.0), p(100.0)));
}

#[test]
fn test_stroke_case4_process_up_promotion() {
    // 端到端: 候选 (B0→T1) barDiff=1 不满足C1; C2 棘轮下移收口于更劣终点 T3(98<100,
    // F1 需前前顶被突破, 首笔无前顶不触发) → C4 事后升格以 T1 落笔; 其后链自然衔接:
    // T1→B2(93) C2收口 → B2→T4(99) C2收口 → 最终 [B0(90), T1(100), B2(93), T4(99)]
    let v = vec![
        fx(p(90.0), false, 0), fx(p(100.0), true, 1), fx(p(94.0), false, 2), fx(p(97.0), true, 3),
        fx(p(93.0), false, 4), fx(p(98.0), true, 5), fx(p(94.0), false, 6), fx(p(99.0), true, 7),
        fx(p(95.0), false, 8),
    ];
    let ff = process_strokes_fractals(&v, true, 4);
    let got: Vec<(i64, bool)> = ff.iter().map(|x| (x.price, x.is_top)).collect();
    assert_eq!(got, vec![(p(90.0), false), (p(100.0), true), (p(93.0), false), (p(99.0), true)], "ff={:?}", got);
}

#[test]
fn test_stroke_case4_process_down_promotion() {
    // 端到端向下镜像: 候选 (T0→B1) C2 棘轮上移收口于更劣终点 B3(101>100) → C4 事后升格
    // 以 B1 落笔; 其后链: B1→T4(108) C2收口 → T4→B5(100.5) C2收口 → 最终
    // [T0(110), B1(100), T4(108), B5(100.5)]
    let v = vec![
        fx(p(110.0), true, 0), fx(p(100.0), false, 1), fx(p(107.0), true, 2), fx(p(103.0), false, 3),
        fx(p(106.0), true, 4), fx(p(101.0), false, 5), fx(p(108.0), true, 6), fx(p(101.5), false, 7),
        fx(p(107.0), true, 8), fx(p(100.5), false, 9),
    ];
    let ff = process_strokes_fractals(&v, true, 4);
    let got: Vec<(i64, bool)> = ff.iter().map(|x| (x.price, x.is_top)).collect();
    assert_eq!(got, vec![(p(110.0), true), (p(100.0), false), (p(108.0), true), (p(100.5), false)], "ff={:?}", got);
}

#[test]
fn test_stroke_case4_param_off_keeps_old_chain() {
    // 参数化回归: case4 关闭 → 与历史行为一致 (C2 收于 T3(98), T4(99) 顶替换 → [B0,T4]),
    let v = vec![
        fx(p(90.0), false, 0), fx(p(100.0), true, 1), fx(p(94.0), false, 2), fx(p(97.0), true, 3),
        fx(p(93.0), false, 4), fx(p(98.0), true, 5), fx(p(94.0), false, 6), fx(p(99.0), true, 7),
        fx(p(95.0), false, 8),
    ];
    let ff = process_strokes_fractals_with_cases(&v, true, false, 4);
    let got: Vec<(i64, bool)> = ff.iter().map(|x| (x.price, x.is_top)).collect();
    assert_eq!(got, vec![(p(90.0), false), (p(99.0), true)], "ff={:?}", got);
}

#[test]
fn test_stroke_case3_param_off() {
    // 参数化: case3 关闭 → C3 强势突破不触发. 序列: B0(90)→T1(96) C1成笔(barDiff=5),
    // B1(88) 破前底 90 但仅当 case3 开启才 C3 落笔
    let v = vec![
        fx(p(90.0), false, 0), fx(p(96.0), true, 5), fx(p(88.0), false, 6),
    ];
    // merged_index=idx 时 C1 的 mergedIndexDiff=1 不满足 → 必须拉开 merged 间距
    let v2: Vec<Fractal> = v.iter().enumerate()
        .map(|(k, f)| Fractal { price: f.price, is_top: f.is_top, bar_index: f.bar_index, merged_index: k * 2, time: f.time })
        .collect();
    let on = process_strokes_fractals_with_cases(&v2, true, true, 4);
    let got_on: Vec<i64> = on.iter().map(|x| x.price).collect();
    assert_eq!(got_on, vec![p(90.0), p(96.0), p(88.0)], "on={:?}", got_on);
    let off = process_strokes_fractals_with_cases(&v2, false, true, 4);
    let got_off: Vec<i64> = off.iter().map(|x| x.price).collect();
    assert_eq!(got_off, vec![p(90.0), p(96.0)], "off={:?}", got_off);
}

#[test]
fn test_stroke_cases_param_mapping() {
    assert_eq!(StrokeCases::from_param(0), StrokeCases { case3: true, case4: true });
    assert_eq!(StrokeCases::from_param(3), StrokeCases { case3: false, case4: true });
    assert_eq!(StrokeCases::from_param(4), StrokeCases { case3: true, case4: false });
    assert_eq!(StrokeCases::from_param(5), StrokeCases { case3: false, case4: false });
    assert_eq!(StrokeCases::from_param(34), StrokeCases { case3: false, case4: false });
    assert_eq!(StrokeCases::from_param(99), StrokeCases::default());
}

#[test]
fn test_levels_case4_off_segment() {
    // 统一 levels 关 case4: 单笔A(100→120) 含后续(下+上)段对 → 全开时
    // C4 单笔段 [0,0] 以最早终点胜出; 关 case4 → 走 C2 延伸段 [0,6] (历史行为)
    let strokes = vec![
        Stroke { start_price: p(100.0), end_price: p(120.0), start_bar: 0, end_bar: 2, is_up: true },
        Stroke { start_price: p(120.0), end_price: p(112.0), start_bar: 3, end_bar: 5, is_up: false },
        Stroke { start_price: p(112.0), end_price: p(116.0), start_bar: 6, end_bar: 8, is_up: true },
        Stroke { start_price: p(116.0), end_price: p(110.0), start_bar: 9, end_bar: 11, is_up: false },
        Stroke { start_price: p(110.0), end_price: p(115.0), start_bar: 12, end_bar: 14, is_up: true },
        Stroke { start_price: p(115.0), end_price: p(113.0), start_bar: 15, end_bar: 17, is_up: false },
        Stroke { start_price: p(113.0), end_price: p(119.0), start_bar: 18, end_bar: 20, is_up: true },
    ];
    let on = process_segments_with_cases(&strokes, true, true);
    assert_eq!(on[0], (0usize, 0usize, true), "on={:?}", on);
    let off = process_segments_with_cases(&strokes, true, false);
    assert_eq!(off[0], (0usize, 6usize, true), "off={:?}", off);
}

#[test]
fn test_levels_case3_off_segment() {
    // 统一 levels 关 case3: down(112→98) 跌破前 up C2 段起点 100 → 全开时
    // C3 一笔当线段 [3,3]; 关 case3 → 无 C3 → 段链止于 up C2 [0,2]
    let strokes = vec![
        Stroke { start_price: p(100.0), end_price: p(110.0), start_bar: 0, end_bar: 2, is_up: true },
        Stroke { start_price: p(110.0), end_price: p(105.0), start_bar: 3, end_bar: 5, is_up: false },
        Stroke { start_price: p(105.0), end_price: p(112.0), start_bar: 6, end_bar: 8, is_up: true },
        Stroke { start_price: p(112.0), end_price: p(98.0), start_bar: 9, end_bar: 11, is_up: false },
    ];
    let on = process_segments_with_cases(&strokes, true, true);
    assert_eq!(on, vec![(0usize, 2usize, true), (3usize, 3usize, false)], "on={:?}", on);
    let off = process_segments_with_cases(&strokes, false, true);
    assert_eq!(off, vec![(0usize, 2usize, true)], "off={:?}", off);
}
