use chanlun_lean_lib::zhongshu::detect_bigseg_third_marks;
use chanlun_lean_lib::zhongshu::detect_bigseg_zhongshus;
use chanlun_lean_lib::zhongshu::BigSegmentZhongShu;
use chanlun_lean_lib::Stroke;

/// Price in ticks of 1/10000.
fn p(v: f64) -> i64 {
    (v * 10000.0).round() as i64
}

fn stroke(is_up: bool, start_price: i64, end_price: i64, start_bar: usize, end_bar: usize) -> Stroke {
    Stroke { is_up, start_price, end_price, start_bar, end_bar }
}

/// 简易映射模型: 每笔 = 一线段 = 一大段
fn ladder(n: usize, strokes: Vec<Stroke>) -> (Vec<Stroke>, Vec<(usize, usize, bool)>, Vec<(usize, usize, bool)>) {
    let segs: Vec<(usize, usize, bool)> =
        (0..n).map(|i| (i, i, strokes[i].is_up)).collect();
    let bigs: Vec<(usize, usize, bool)> =
        (0..n).map(|i| (i, i, strokes[i].is_up)).collect();
    (strokes, segs, bigs)
}

#[test]
fn down_sup_4_bigs_overlap_zhongshu() {
    // 向下高级段: D1(下) U1(上) D2(下) U2(上), U1 与 U2 重叠 → 中枢 [105,115]
    let (strokes, segs, bigs) = ladder(4, vec![
        stroke(false, p(120.0), p(100.0), 0, 10),
        stroke(true, p(100.0), p(115.0), 10, 20),
        stroke(false, p(115.0), p(105.0), 20, 30),
        stroke(true, p(105.0), p(118.0), 30, 40),
    ]);
    let sups = vec![(0usize, 3usize, false)];
    let out = detect_bigseg_zhongshus(&sups, &bigs, &segs, &strokes);
    assert_eq!(out.len(), 1);
    let zs = &out[0];
    assert_eq!(zs.sup_idx, 0);
    assert_eq!(zs.start_bar, 10);
    assert_eq!(zs.end_bar, 40);
    assert_eq!(zs.zd, p(105.0));
    assert_eq!(zs.zg, p(115.0));
    assert_eq!(zs.gg, p(118.0));
    assert_eq!(zs.dd, p(100.0));
}

#[test]
fn extend_stops_on_leave_no_resume() {
    // D3 完全离开区间上方 (low=116 > zg=115) → 延伸停止; U3 即使存在也不参与
    let (strokes, segs, bigs) = ladder(6, vec![
        stroke(false, p(120.0), p(100.0), 0, 10),
        stroke(true, p(100.0), p(115.0), 10, 20),
        stroke(false, p(115.0), p(105.0), 20, 30),
        stroke(true, p(105.0), p(118.0), 30, 40),
        stroke(false, p(118.0), p(116.0), 40, 50),
        stroke(true, p(116.0), p(130.0), 50, 60),
    ]);
    let sups = vec![(0usize, 5usize, false)];
    let out = detect_bigseg_zhongshus(&sups, &bigs, &segs, &strokes);
    assert_eq!(out.len(), 1);
    let zs = &out[0];
    assert_eq!(zs.end_bar, 40); // 只到 U2 终点, D3/U3 不参与
    assert_eq!(zs.gg, p(118.0));
    assert_eq!(zs.dd, p(100.0));
}

#[test]
fn extend_touching_boundary_overlap_continues_same_dir_advances() {
    // D3 触及上沿 (low == zg) 仍算重叠 (恰好相等也延伸), 延伸循环继续;
    // 但 D3 为异向段不推进终点, U3 (同向) 重叠才推进终点
    let (strokes, segs, bigs) = ladder(6, vec![
        stroke(false, p(120.0), p(100.0), 0, 10),
        stroke(true, p(100.0), p(115.0), 10, 20),
        stroke(false, p(115.0), p(105.0), 20, 30),
        stroke(true, p(105.0), p(118.0), 30, 40),
        stroke(false, p(118.0), p(115.0), 40, 50), // [115,118]: low == zg 恰好相等
        stroke(true, p(115.0), p(116.0), 50, 60),  // U3 与 [105,115] 重叠
    ]);
    let sups = vec![(0usize, 5usize, false)];
    let out = detect_bigseg_zhongshus(&sups, &bigs, &segs, &strokes);
    assert_eq!(out.len(), 1);
    assert_eq!(out[0].end_bar, 60); // D3 不推进, U3 推进
}

#[test]
fn down_sup_opposite_dir_overlap_end_kept() {
    // 向下高级段: D3 (向下, 异向) 与中枢重叠 → 终点保持 U2 终点, 不推进到 D3;
    // GG/DD 仍统计 D3
    let (strokes, segs, bigs) = ladder(5, vec![
        stroke(false, p(120.0), p(100.0), 0, 10),
        stroke(true, p(100.0), p(115.0), 10, 20),
        stroke(false, p(115.0), p(105.0), 20, 30),
        stroke(true, p(105.0), p(118.0), 30, 40),
        stroke(false, p(118.0), p(110.0), 40, 50), // D3 与 [105,115] 重叠
    ]);
    let sups = vec![(0usize, 4usize, false)];
    let out = detect_bigseg_zhongshus(&sups, &bigs, &segs, &strokes);
    assert_eq!(out.len(), 1);
    assert_eq!(out[0].start_bar, 10);
    assert_eq!(out[0].end_bar, 40); // 保持 U2 终点 (向上段)
    assert_eq!(out[0].zd, p(105.0));
    assert_eq!(out[0].zg, p(115.0));
    assert_eq!(out[0].gg, p(118.0)); // GG/DD 仍统计 D3
    assert_eq!(out[0].dd, p(100.0));
}

#[test]
fn up_sup_extend_only_same_dir_end() {
    // 向上高级段 (对称): U3 (向上, 异向) 重叠不推进终点; D3 (向下, 同向) 重叠才推进
    let (strokes, segs, bigs) = ladder(6, vec![
        stroke(true, p(100.0), p(120.0), 0, 10),
        stroke(false, p(120.0), p(108.0), 10, 20),
        stroke(true, p(108.0), p(118.0), 20, 30),
        stroke(false, p(118.0), p(102.0), 30, 40),
        stroke(true, p(102.0), p(110.0), 40, 50),  // U3 与 [108,118] 重叠
        stroke(false, p(110.0), p(104.0), 50, 60), // D3 与 [108,118] 重叠
    ]);
    let sups = vec![(0usize, 5usize, true)];
    let out = detect_bigseg_zhongshus(&sups, &bigs, &segs, &strokes);
    assert_eq!(out.len(), 1);
    assert_eq!(out[0].start_bar, 10);
    assert_eq!(out[0].end_bar, 60); // D3 终点 (向下段)
    assert_eq!(out[0].zd, p(108.0));
    assert_eq!(out[0].zg, p(118.0));
    assert_eq!(out[0].gg, p(120.0));
    assert_eq!(out[0].dd, p(102.0));
}

#[test]
fn up_sup_symmetric() {
    // 向上高级段: U1(上) D1(下) U2(上) D2(下), D1 与 D2 重叠 → 中枢 [108,118]
    let (strokes, segs, bigs) = ladder(4, vec![
        stroke(true, p(100.0), p(120.0), 0, 10),
        stroke(false, p(120.0), p(108.0), 10, 20),
        stroke(true, p(108.0), p(118.0), 20, 30),
        stroke(false, p(118.0), p(102.0), 30, 40),
    ]);
    let sups = vec![(0usize, 3usize, true)];
    let out = detect_bigseg_zhongshus(&sups, &bigs, &segs, &strokes);
    assert_eq!(out.len(), 1);
    let zs = &out[0];
    assert_eq!(zs.zd, p(108.0));
    assert_eq!(zs.zg, p(118.0));
    assert_eq!(zs.start_bar, 10);
    assert_eq!(zs.end_bar, 40);
}

#[test]
fn inner_3_bigs_single_reverse_zhongshu() {
    // 仅 1 个反向段 (向下高级段 3 大段 D1 U1 D2): 也画中枢,
    // 区间 = 位置2 反向大段 U1 [100,115] 的高低点
    let (strokes, segs, bigs) = ladder(3, vec![
        stroke(false, p(120.0), p(100.0), 0, 10),
        stroke(true, p(100.0), p(115.0), 10, 20),
        stroke(false, p(115.0), p(105.0), 20, 30),
    ]);
    let sups = vec![(0usize, 2usize, false)];
    let out = detect_bigseg_zhongshus(&sups, &bigs, &segs, &strokes);
    assert_eq!(out.len(), 1);
    let zs = &out[0];
    assert_eq!(zs.sup_idx, 0);
    assert_eq!(zs.start_bar, 10);
    assert_eq!(zs.end_bar, 20);
    assert_eq!(zs.zd, p(100.0));
    assert_eq!(zs.zg, p(115.0));
    assert_eq!(zs.gg, p(115.0));
    assert_eq!(zs.dd, p(100.0));
}

#[test]
fn up_sup_3_bigs_single_reverse_zhongshu() {
    // 向上高级段 3 大段 U1 D1 U2 (仅 1 个反向段 D1): 区间 = D1 [108,120] 高低点
    let (strokes, segs, bigs) = ladder(3, vec![
        stroke(true, p(100.0), p(120.0), 0, 10),
        stroke(false, p(120.0), p(108.0), 10, 20),
        stroke(true, p(108.0), p(118.0), 20, 30),
    ]);
    let sups = vec![(0usize, 2usize, true)];
    let out = detect_bigseg_zhongshus(&sups, &bigs, &segs, &strokes);
    assert_eq!(out.len(), 1);
    let zs = &out[0];
    assert_eq!(zs.sup_idx, 0);
    assert_eq!(zs.start_bar, 10);
    assert_eq!(zs.end_bar, 20);
    assert_eq!(zs.zd, p(108.0));
    assert_eq!(zs.zg, p(120.0));
    assert_eq!(zs.gg, p(120.0));
    assert_eq!(zs.dd, p(108.0));
}

#[test]
fn inner_2_bigs_no_zhongshu() {
    // 内部仅 2 大段 (反向段未被第二个正向段确认): 不画中枢
    let (strokes, segs, bigs) = ladder(2, vec![
        stroke(false, p(120.0), p(100.0), 0, 10),
        stroke(true, p(100.0), p(115.0), 10, 20),
    ]);
    let sups = vec![(0usize, 1usize, false)];
    let out = detect_bigseg_zhongshus(&sups, &bigs, &segs, &strokes);
    assert!(out.is_empty());
}

#[test]
fn no_overlap_falls_back_to_first_reverse() {
    // U1 [100,105] 与 U2 [85,95] 不重叠 → 退化为第一个反向段 U1 自身中枢,
    // 区间 = U1 高低点, 矩形 = U1 起止
    let (strokes, segs, bigs) = ladder(4, vec![
        stroke(false, p(120.0), p(100.0), 0, 10),
        stroke(true, p(100.0), p(105.0), 10, 20),
        stroke(false, p(105.0), p(85.0), 20, 30),
        stroke(true, p(85.0), p(95.0), 30, 40),
    ]);
    let sups = vec![(0usize, 3usize, false)];
    let out = detect_bigseg_zhongshus(&sups, &bigs, &segs, &strokes);
    assert_eq!(out.len(), 1);
    let zs = &out[0];
    assert_eq!(zs.sup_idx, 0);
    assert_eq!(zs.start_bar, 10);
    assert_eq!(zs.end_bar, 20);
    assert_eq!(zs.zd, p(100.0));
    assert_eq!(zs.zg, p(105.0));
    assert_eq!(zs.gg, p(105.0));
    assert_eq!(zs.dd, p(100.0));
}

#[test]
fn up_sup_no_overlap_falls_back_to_first_reverse() {
    // 向上高级段: D1 [120,130] 与 D2 [140,145] 不重叠 (回调依次抬高)
    // → 退化画 D1 自身, 区间 [120,130], 矩形 = D1 起止
    let (strokes, segs, bigs) = ladder(4, vec![
        stroke(true, p(100.0), p(130.0), 0, 10),
        stroke(false, p(130.0), p(120.0), 10, 20),
        stroke(true, p(120.0), p(145.0), 20, 30),
        stroke(false, p(145.0), p(140.0), 30, 40),
    ]);
    let sups = vec![(0usize, 3usize, true)];
    let out = detect_bigseg_zhongshus(&sups, &bigs, &segs, &strokes);
    assert_eq!(out.len(), 1);
    let zs = &out[0];
    assert_eq!(zs.start_bar, 10);
    assert_eq!(zs.end_bar, 20);
    assert_eq!(zs.zd, p(120.0));
    assert_eq!(zs.zg, p(130.0));
    assert_eq!(zs.gg, p(130.0));
    assert_eq!(zs.dd, p(120.0));
}

#[test]
fn only_first_zhongshu_per_sup() {
    // 6 大段且后续延伸段持续重叠: 只输出第一个中枢, 不再统计后续潜在中枢
    let (strokes, segs, bigs) = ladder(6, vec![
        stroke(false, p(120.0), p(100.0), 0, 10),
        stroke(true, p(100.0), p(115.0), 10, 20),
        stroke(false, p(115.0), p(105.0), 20, 30),
        stroke(true, p(105.0), p(118.0), 30, 40),
        stroke(false, p(118.0), p(106.0), 40, 50),
        stroke(true, p(106.0), p(120.0), 50, 60),
    ]);
    let sups = vec![(0usize, 5usize, false)];
    let out = detect_bigseg_zhongshus(&sups, &bigs, &segs, &strokes);
    assert_eq!(out.len(), 1);
    assert_eq!(out[0].end_bar, 60);
}

#[test]
fn single_reverse_zs_endpoints_not_inner() {
    // 单反向段回归场景: 向上高级段 3 大段 U1 D1 U2,
    // 仅 1 个反向段 D1; D1 内部 3 线段 (DN-UP-DN): 内部低点 108 < 大段终点 110 →
    // 中枢 zd 必须取大段端点 110 (大段中枢只借用大段端点, 不用管大段内部如何)
    let strokes = vec![
        stroke(true, p(100.0), p(120.0), 0, 10),   // 线段0: U1
        stroke(false, p(120.0), p(108.0), 10, 20),  // 线段1: D1 内部 (DN)
        stroke(true, p(108.0), p(115.0), 20, 30),   // 线段2: D1 内部 (UP)
        stroke(false, p(115.0), p(110.0), 30, 40),  // 线段3: D1 内部 (DN) = 大段终点 110
        stroke(true, p(110.0), p(118.0), 40, 50),   // 线段4: U2
    ];
    let segs: Vec<(usize, usize, bool)> = (0..5).map(|i| (i, i, strokes[i].is_up)).collect();
    let bigs = vec![(0usize, 0usize, true), (1usize, 3usize, false), (4usize, 4usize, true)];
    let sups = vec![(0usize, 2usize, true)];
    let out = detect_bigseg_zhongshus(&sups, &bigs, &segs, &strokes);
    assert_eq!(out.len(), 1);
    let zs = &out[0];
    assert_eq!(zs.zd, p(110.0)); // 大段端点 (终点价), 不是内部低点 108
    assert_eq!(zs.zg, p(120.0)); // 大段端点 (起点价)
    assert_eq!(zs.start_bar, 10);
    assert_eq!(zs.end_bar, 40);
}

#[test]
fn overlap_pair_zs_endpoints_not_inner() {
    // 双反向段重叠中枢同样只比较大段端点:
    // 向上高级段 U1 D1 U2 D2; D1 内部低点 108 < 端点 110, D2 内部低点 105 < 端点 112 →
    // 重叠 zd = max(110, 112) = 112 (用端点), 内部极值版会得 max(108,105)=108 (错)
    let strokes = vec![
        stroke(true, p(100.0), p(120.0), 0, 10),   // 线段0: U1
        stroke(false, p(120.0), p(108.0), 10, 20),  // 线段1: D1 内部 (DN)
        stroke(true, p(108.0), p(115.0), 20, 30),   // 线段2: D1 内部 (UP)
        stroke(false, p(115.0), p(110.0), 30, 40),  // 线段3: D1 终点 110
        stroke(true, p(110.0), p(125.0), 40, 50),   // 线段4: U2
        stroke(false, p(125.0), p(105.0), 50, 60),  // 线段5: D2 内部 (DN)
        stroke(true, p(105.0), p(118.0), 60, 70),   // 线段6: D2 内部 (UP)
        stroke(false, p(118.0), p(112.0), 70, 80),  // 线段7: D2 终点 112
    ];
    let segs: Vec<(usize, usize, bool)> = (0..8).map(|i| (i, i, strokes[i].is_up)).collect();
    let bigs = vec![
        (0usize, 0usize, true),
        (1usize, 3usize, false),
        (4usize, 4usize, true),
        (5usize, 7usize, false),
    ];
    let sups = vec![(0usize, 3usize, true)];
    let out = detect_bigseg_zhongshus(&sups, &bigs, &segs, &strokes);
    assert_eq!(out.len(), 1);
    let zs = &out[0];
    assert_eq!(zs.zd, p(112.0)); // max(110, 112) 端点重叠
    assert_eq!(zs.zg, p(120.0)); // min(120, 125)
}

#[test]
fn third_buy_after_leave_and_pullback() {
    // 向下高级段: 中枢 [U1,U2]=[105,115] (end_bar=40);
    // D3 回试不破上沿 (118→116, low=116>115) → 延伸停止;
    // U3 向上离开 (116→130), D4 再回试 (130→120, 终点bar70 最低价 120>115) → 三买
    let (strokes, segs, bigs) = ladder(7, vec![
        stroke(false, p(120.0), p(100.0), 0, 10),
        stroke(true, p(100.0), p(115.0), 10, 20),
        stroke(false, p(115.0), p(105.0), 20, 30),
        stroke(true, p(105.0), p(118.0), 30, 40),
        stroke(false, p(118.0), p(116.0), 40, 50), // D3: 回试不破上沿, 延伸停止
        stroke(true, p(116.0), p(130.0), 50, 60),  // U3: 向上离开
        stroke(false, p(130.0), p(120.0), 60, 70), // D4: 回试, 终点bar70
    ]);
    let sups = vec![(0usize, 6usize, false)];
    let zhongshus = detect_bigseg_zhongshus(&sups, &bigs, &segs, &strokes);
    assert_eq!(zhongshus.len(), 1);
    assert_eq!(zhongshus[0].end_bar, 40); // D3 未参与中枢
    let mut lows = vec![p(0.0); 71];
    lows[70] = p(120.0); // D4 终点bar最低价 > ZG=115
    let highs = vec![p(999.0); 71]; // 默认高价: 不误触发三卖
    let marks = detect_bigseg_third_marks(&sups, &bigs, &segs, &strokes, &zhongshus, &highs, &lows);
    assert_eq!(marks.len(), 1);
    assert_eq!(marks[0].bar_index, 70);
    assert_eq!(marks[0].price, p(120.0));
    assert!(marks[0].is_buy);
}

#[test]
fn up_sup_third_buy_symmetric() {
    // 向上高级段: 中枢 [D1,D2]=[108,118] (end_bar=40);
    // U3 从中枢下沿下方涨起 (与中枢重叠, 异向不推进终点);
    // D3 回试 (126→120, 终点bar60 最低价 120>118) → 三买
    let (strokes, segs, bigs) = ladder(6, vec![
        stroke(true, p(100.0), p(130.0), 0, 10),
        stroke(false, p(130.0), p(108.0), 10, 20),
        stroke(true, p(108.0), p(118.0), 20, 30),
        stroke(false, p(118.0), p(102.0), 30, 40),
        stroke(true, p(102.0), p(126.0), 40, 50),  // U3: 与中枢重叠, 异向不推进
        stroke(false, p(126.0), p(120.0), 50, 60), // D3: 回试 low=120>118 → 延伸停止
    ]);
    let sups = vec![(0usize, 5usize, true)];
    let zhongshus = detect_bigseg_zhongshus(&sups, &bigs, &segs, &strokes);
    assert_eq!(zhongshus.len(), 1);
    assert_eq!(zhongshus[0].end_bar, 40);
    let mut lows = vec![p(0.0); 61];
    lows[60] = p(120.0); // D3 终点bar最低价 > ZG=118
    let highs = vec![p(999.0); 61]; // 默认高价: 不误触发三卖
    let marks = detect_bigseg_third_marks(&sups, &bigs, &segs, &strokes, &zhongshus, &highs, &lows);
    assert_eq!(marks.len(), 1);
    assert_eq!(marks[0].bar_index, 60);
    assert_eq!(marks[0].price, p(120.0));
    assert!(marks[0].is_buy);
}

/// 回归: 离开段是高级段最后大段, 回试段是其后游离大段
/// (不属于任何高级段) → 仍判定这一对. 且回试大段内部存在跌破 ZG 的向下线段
/// (线段5 终点 158.4 < ZG 159.388) — 大段中枢只看大段终点价 (bar60 最低价
/// 160.052 > ZG), 不看内部线段 → 三买成立 (层级正确).
#[test]
fn third_buy_retest_bigseg_outside_sup() {
    let strokes = vec![
        stroke(true, p(158.0), p(159.0), 0, 10),   // 大段0
        stroke(false, p(159.0), p(158.5), 10, 20), // 大段1
        stroke(true, p(158.5), p(159.2), 20, 30),  // 大段2
        stroke(false, p(159.2), p(158.8), 30, 40), // 大段3 (中枢右边界=40)
        stroke(true, p(158.8), p(160.1), 40, 50),  // 大段4 离开段(up)
        stroke(false, p(160.1), p(158.4), 50, 55), // 线段5: 内部跌破 ZG 159.388
        stroke(true, p(158.4), p(160.052), 55, 60),// 线段6: 大段5终点 bar 60
    ];
    let segs: Vec<(usize, usize, bool)> = (0..7).map(|i| (i, i, strokes[i].is_up)).collect();
    let mut bigs: Vec<(usize, usize, bool)> = (0..5).map(|i| (i, i, strokes[i].is_up)).collect();
    bigs.push((5, 6, false)); // 大段5 = (线段5,线段6) down, 游离于高级段外
    let sups = vec![(0usize, 4usize, true)]; // 高级段 sup#0 大段[0..4]
    let zhongshus = vec![BigSegmentZhongShu {
        sup_idx: 0, start_bar: 10, end_bar: 40,
        zg: p(159.388), zd: p(159.059), gg: p(159.5), dd: p(158.5),
    }];
    let mut lows = vec![p(159.0); 61];
    lows[60] = p(160.052); // 回试大段终点bar 60 最低价 > ZG
    let highs = vec![p(999.0); 61];
    let marks = detect_bigseg_third_marks(&sups, &bigs, &segs, &strokes, &zhongshus, &highs, &lows);
    assert_eq!(marks.len(), 1, "{:?}", marks);
    assert_eq!(marks[0].bar_index, 60);
    assert_eq!(marks[0].price, p(160.052));
    assert!(marks[0].is_buy);
}

/// 卖点镜像: 离开段是高级段最后大段(down), 回试段是其后游离向上大段 → 三卖.
#[test]
fn third_sell_retest_bigseg_outside_sup() {
    let strokes = vec![
        stroke(false, p(161.0), p(160.0), 0, 10), // 大段0
        stroke(true, p(160.0), p(160.5), 10, 20),  // 大段1
        stroke(false, p(160.5), p(160.2), 20, 30), // 大段2
        stroke(true, p(160.2), p(160.6), 30, 40),  // 大段3 (中枢右边界=40)
        stroke(false, p(160.6), p(160.3), 40, 50), // 大段4 离开段(down)
        stroke(true, p(160.3), p(160.7), 50, 60),  // 大段5 回试段(up) 游离, 终点bar60
    ];
    let segs: Vec<(usize, usize, bool)> = (0..6).map(|i| (i, i, strokes[i].is_up)).collect();
    let bigs: Vec<(usize, usize, bool)> = (0..6).map(|i| (i, i, strokes[i].is_up)).collect();
    let sups = vec![(0usize, 4usize, false)];
    let zhongshus = vec![BigSegmentZhongShu {
        sup_idx: 0, start_bar: 10, end_bar: 40,
        zg: p(160.6), zd: p(160.3), gg: p(160.7), dd: p(160.0),
    }];
    let mut highs = vec![p(160.5); 61];
    highs[60] = p(160.25); // 回试大段终点bar60 最高价 < ZD 160.3
    let lows = vec![p(0.0); 61];
    let marks = detect_bigseg_third_marks(&sups, &bigs, &segs, &strokes, &zhongshus, &highs, &lows);
    assert_eq!(marks.len(), 1, "{:?}", marks);
    assert_eq!(marks[0].bar_index, 60);
    assert_eq!(marks[0].price, p(160.25));
    assert!(!marks[0].is_buy);
}

/// 边界: 离开段是全局最后大段 (其后无任何大段) → 无回试段 → 不标记 (维持原语义).
#[test]
fn third_no_retest_without_next_bigseg() {
    let (strokes, segs, bigs) = ladder(5, vec![
        stroke(true, p(158.0), p(159.0), 0, 10),
        stroke(false, p(159.0), p(158.5), 10, 20),
        stroke(true, p(158.5), p(159.2), 20, 30),
        stroke(false, p(159.2), p(158.8), 30, 40),
        stroke(true, p(158.8), p(160.1), 40, 50), // 大段4 = 全局最后大段
    ]);
    let sups = vec![(0usize, 4usize, true)];
    let zhongshus = vec![BigSegmentZhongShu {
        sup_idx: 0, start_bar: 10, end_bar: 40,
        zg: p(159.388), zd: p(159.059), gg: p(159.5), dd: p(158.5),
    }];
    let lows = vec![p(159.0); 51];
    let highs = vec![p(999.0); 51];
    let marks = detect_bigseg_third_marks(&sups, &bigs, &segs, &strokes, &zhongshus, &highs, &lows);
    assert!(marks.is_empty(), "{:?}", marks);
}

/// 卖点 (原有): 向下高级段离开后弱反弹 → 三卖 (离开段非最后大段的常规场景).
#[test]
fn third_sell_after_down_leave_and_weak_rebound() {
    // 向下高级段: 中枢 [U1,U2]=[105,115];
    // D3 跌破下沿 (118→95, 区间仍与中枢重叠 → 延伸继续);
    // U3 重叠推进终点 (end_bar=60); D4 续跌 (110→90);
    // U4 弱反弹 (90→100, 终点bar80 最高价 100<105) → 三卖
    let (strokes, segs, bigs) = ladder(8, vec![
        stroke(false, p(120.0), p(100.0), 0, 10),
        stroke(true, p(100.0), p(115.0), 10, 20),
        stroke(false, p(115.0), p(105.0), 20, 30),
        stroke(true, p(105.0), p(118.0), 30, 40),
        stroke(false, p(118.0), p(95.0), 40, 50),  // D3: 跌破下沿但区间重叠
        stroke(true, p(95.0), p(110.0), 50, 60),   // U3: 重叠, 同向推进终点
        stroke(false, p(110.0), p(90.0), 60, 70),  // D4: 续跌, 与中枢重叠 (异向不推进)
        stroke(true, p(90.0), p(100.0), 70, 80),   // U4: 弱反弹 high=100<105 → 延伸停止
    ]);
    let sups = vec![(0usize, 7usize, false)];
    let zhongshus = detect_bigseg_zhongshus(&sups, &bigs, &segs, &strokes);
    assert_eq!(zhongshus.len(), 1);
    assert_eq!(zhongshus[0].end_bar, 60); // U3 推进终点
    let mut highs = vec![p(999.0); 81]; // 默认高价, 仅 U4 终点bar 设为 100
    let lows = vec![p(0.0); 81];
    highs[80] = p(100.0);
    let marks = detect_bigseg_third_marks(&sups, &bigs, &segs, &strokes, &zhongshus, &highs, &lows);
    assert_eq!(marks.len(), 1);
    assert_eq!(marks[0].bar_index, 80);
    assert_eq!(marks[0].price, p(100.0));
    assert!(!marks[0].is_buy);
}

#[test]
fn no_third_buy_when_pullback_enters_zhongshu() {
    // D4 回试终点bar70 最低价 114 <= ZG=115 → 跌回中枢 → 无三买
    let (strokes, segs, bigs) = ladder(7, vec![
        stroke(false, p(120.0), p(100.0), 0, 10),
        stroke(true, p(100.0), p(115.0), 10, 20),
        stroke(false, p(115.0), p(105.0), 20, 30),
        stroke(true, p(105.0), p(118.0), 30, 40),
        stroke(false, p(118.0), p(116.0), 40, 50),
        stroke(true, p(116.0), p(130.0), 50, 60),  // U3: 向上离开
        stroke(false, p(130.0), p(114.0), 60, 70), // D4: 回试跌回中枢
    ]);
    let sups = vec![(0usize, 6usize, false)];
    let zhongshus = detect_bigseg_zhongshus(&sups, &bigs, &segs, &strokes);
    let lows = vec![p(114.0); 71]; // 终点bar最低价 114 <= ZG=115
    let highs = vec![p(999.0); 71];
    let marks = detect_bigseg_third_marks(&sups, &bigs, &segs, &strokes, &zhongshus, &highs, &lows);
    assert!(marks.is_empty());
}

#[test]
fn only_first_third_mark_per_zhongshu() {
    // U3 离开 → D4 回试 (120>115) 三买成立即停止;
    // 后续 U4/D5 即使也满足三买条件也不再检查
    let (strokes, segs, bigs) = ladder(9, vec![
        stroke(false, p(120.0), p(100.0), 0, 10),
        stroke(true, p(100.0), p(115.0), 10, 20),
        stroke(false, p(115.0), p(105.0), 20, 30),
        stroke(true, p(105.0), p(118.0), 30, 40),
        stroke(false, p(118.0), p(116.0), 40, 50),
        stroke(true, p(116.0), p(130.0), 50, 60),  // U3: 向上离开
        stroke(false, p(130.0), p(120.0), 60, 70), // D4: 回试 → 三买 (bar70)
        stroke(true, p(120.0), p(140.0), 70, 80),  // U4
        stroke(false, p(140.0), p(130.0), 80, 90), // D5: 也满足三买, 但已停止
    ]);
    let sups = vec![(0usize, 8usize, false)];
    let zhongshus = detect_bigseg_zhongshus(&sups, &bigs, &segs, &strokes);
    let mut lows = vec![p(0.0); 91];
    lows[70] = p(120.0);
    lows[90] = p(130.0);
    let highs = vec![p(999.0); 91]; // 默认高价: 不误触发三卖
    let marks = detect_bigseg_third_marks(&sups, &bigs, &segs, &strokes, &zhongshus, &highs, &lows);
    assert_eq!(marks.len(), 1);
    assert_eq!(marks[0].bar_index, 70);
    assert!(marks[0].is_buy);
}

#[test]
fn no_third_mark_cross_sup_boundary() {
    // 高级段0 (含中枢) 之后仅剩 D3 一段, 无法成对 → 无标记;
    // 不跨到高级段1 (U1 起点 bar60, 即使其终点低价 120 也不检查)
    let (strokes, segs, bigs) = ladder(6, vec![
        stroke(false, p(120.0), p(100.0), 0, 10),
        stroke(true, p(100.0), p(115.0), 10, 20),
        stroke(false, p(115.0), p(105.0), 20, 30),
        stroke(true, p(105.0), p(118.0), 30, 40),
        stroke(false, p(118.0), p(116.0), 40, 50), // D3: 高级段0 最后一段
        stroke(true, p(116.0), p(130.0), 50, 60),  // 高级段1: U1
    ]);
    let sups = vec![(0usize, 4usize, false), (5usize, 5usize, true)];
    let zhongshus = detect_bigseg_zhongshus(&sups, &bigs, &segs, &strokes);
    assert_eq!(zhongshus.len(), 1);
    let lows = vec![p(120.0); 61];
    let highs = vec![p(999.0); 61];
    let marks = detect_bigseg_third_marks(&sups, &bigs, &segs, &strokes, &zhongshus, &highs, &lows);
    assert!(marks.is_empty());
}

#[test]
fn no_cross_sup_boundary() {
    // 高级段1 (向下, 含中枢) + 高级段2 (向上, 对称含中枢): 各出 1 个, 互不越界
    let (strokes, segs, bigs) = ladder(8, vec![
        stroke(false, p(120.0), p(100.0), 0, 10),
        stroke(true, p(100.0), p(115.0), 10, 20),
        stroke(false, p(115.0), p(105.0), 20, 30),
        stroke(true, p(105.0), p(118.0), 30, 40),
        stroke(true, p(90.0), p(110.0), 40, 50),
        stroke(false, p(110.0), p(98.0), 50, 60),
        stroke(true, p(98.0), p(108.0), 60, 70),
        stroke(false, p(108.0), p(94.0), 70, 80),
    ]);
    let sups = vec![(0usize, 3usize, false), (4usize, 7usize, true)];
    let out = detect_bigseg_zhongshus(&sups, &bigs, &segs, &strokes);
    assert_eq!(out.len(), 2);
    // 中枢1: 属于高级段0, 右边界止于 bigs[3] (bar 40), 不越界到高级段2
    assert_eq!(out[0].sup_idx, 0);
    assert_eq!(out[0].start_bar, 10);
    assert_eq!(out[0].end_bar, 40);
    assert_eq!(out[0].zd, p(105.0));
    assert_eq!(out[0].zg, p(115.0));
    // 中枢2: 属于高级段1, 判定对 = bigs[5] (D1) 与 bigs[7] (D2)
    assert_eq!(out[1].sup_idx, 1);
    assert_eq!(out[1].start_bar, 50);
    assert_eq!(out[1].end_bar, 80);
    assert_eq!(out[1].zd, p(98.0));
    assert_eq!(out[1].zg, p(108.0));
}
