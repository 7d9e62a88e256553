//! Unit scenarios for each stage of the analysis, on small hand-built inputs.

use chanlun_tdx::chan::{
    build_pivots, build_segments, build_strokes, collect_fractals, dbg_feats, dbg_scan, dbg_scan2,
    dbg_scan3, dbg_scan_view, detect_mmds, macd_area, merge_and_mark, rel, strokes_to_lines, Bar,
    ChanK, Fx, Kind, Line, Mmd, MmdMark, Pivot, Rel, Segment,
};
use chanlun_tdx::chan::feature::scan_features;
use chanlun_tdx::mark::{
    BI_MARK, BI_PRICE, FX_MARK, FX_PRICE, PZ_BEICHI, RESV19, RESV20, ROWS, XD_MARK,
};
use chanlun_tdx::outputs::{compute_all, Cell};

fn to_bars(hl: &[(i64, i64)]) -> Vec<Bar> {
    hl.iter()
        .enumerate()
        .map(|(i, &(h, l))| Bar { ts: 1000 + i as i64, open: l, high: h, low: l, close: h })
        .collect()
}

fn ks_of(ks: &[ChanK]) -> Vec<(usize, usize, usize, i64, i64, Option<Kind>, i64)> {
    ks.iter().map(|k| (k.raw_start, k.raw_end, k.mark_bar, k.high, k.low, k.kind, k.feat)).collect()
}

fn fxs_of(fxs: &[Fx]) -> Vec<(usize, bool, i64)> {
    fxs.iter().map(|f| (f.k, f.top, f.feat)).collect()
}

fn lines_of(ls: &[Line]) -> Vec<(usize, usize, bool, i64, i64, i64, i64)> {
    ls.iter().map(|l| (l.wen, l.wu, l.dir_up, l.high, l.low, l.wen_feat, l.wu_feat)).collect()
}

fn pivots_of(ps: &[Pivot]) -> Vec<(i64, i64, usize, usize, Option<usize>)> {
    ps.iter().map(|p| (p.zg, p.zd, p.start_li, p.end_li, p.tbs)).collect()
}

fn segments_of(ss: &[Segment]) -> Vec<(bool, usize, usize, i64, i64, usize, usize)> {
    ss.iter().map(|s| (s.dir_up, s.wen, s.wu, s.wen_feat, s.wu_feat, s.start_bi, s.end_bi)).collect()
}

fn mmds_of(ms: &[MmdMark]) -> Vec<(usize, Mmd)> {
    ms.iter().map(|m| (m.bar, m.kind)).collect()
}

/// A line from `wen` to `wu` whose ends sit at prices `a` and `b`.
fn line(wen: usize, wu: usize, dir_up: bool, a: i64, b: i64) -> Line {
    Line { wen, wu, dir_up, high: a.max(b), low: a.min(b), wen_feat: a, wu_feat: b }
}

/// Strokes of five bars each between the given turning prices.
fn zigzag_lines(vals: &[i64]) -> Vec<Line> {
    (0..vals.len() - 1)
        .map(|i| line(i * 5, (i + 1) * 5, vals[i + 1] > vals[i], vals[i], vals[i + 1]))
        .collect()
}

fn rising_pivot_lines() -> Vec<Line> {
    zigzag_lines(&[10, 20, 14, 22, 16, 30, 26, 40, 32, 38, 30, 44, 36, 50])
}

fn falling_pivot_lines() -> Vec<Line> {
    zigzag_lines(&[50, 40, 46, 36, 44, 30, 38, 24, 34, 28, 36, 20, 30, 10, 18])
}

/// Two full up-and-down swings between 3 and 20, six bars per leg.
fn swing_bars() -> Vec<Bar> {
    let mut hl: Vec<(i64, i64)> = Vec::new();
    for i in 0..6 {
        hl.push((10 + 2 * i, 5 + 2 * i));
    }
    for j in 1..7 {
        hl.push((20 - 2 * j, 15 - 2 * j));
    }
    for i in 1..7 {
        hl.push((8 + 2 * i, 3 + 2 * i));
    }
    for j in 1..7 {
        hl.push((20 - 2 * j, 15 - 2 * j));
    }
    to_bars(&hl)
}

fn mirror(r: Rel) -> Rel {
    match r {
        Rel::Same => Rel::Same,
        Rel::Down => Rel::Up,
        Rel::DownGap => Rel::UpGap,
        Rel::DownTouch => Rel::UpTouch,
        Rel::Up => Rel::Down,
        Rel::UpGap => Rel::DownGap,
        Rel::UpTouch => Rel::DownTouch,
        Rel::Shun => Rel::Ni,
        Rel::Ni => Rel::Shun,
    }
}

// ---------------------------------------------------------------- relation

#[test]
fn rel_each_variant() {
    assert_eq!(rel(10, 5, 10, 5), Rel::Same);
    assert_eq!(rel(10, 5, 8, 3), Rel::Down);
    assert_eq!(rel(10, 5, 5, 3), Rel::DownTouch);
    assert_eq!(rel(10, 5, 4, 2), Rel::DownGap);
    assert_eq!(rel(10, 5, 12, 7), Rel::Up);
    assert_eq!(rel(10, 5, 12, 10), Rel::UpTouch);
    assert_eq!(rel(10, 5, 14, 11), Rel::UpGap);
    assert_eq!(rel(10, 5, 9, 6), Rel::Shun);
    assert_eq!(rel(10, 5, 10, 6), Rel::Shun);
    assert_eq!(rel(10, 5, 9, 5), Rel::Shun);
    assert_eq!(rel(10, 5, 11, 4), Rel::Ni);
    assert_eq!(rel(10, 5, 10, 4), Rel::Ni);
    assert_eq!(rel(10, 5, 11, 5), Rel::Ni);
}

#[test]
fn rel_predicates() {
    let all = [
        Rel::Same,
        Rel::Down,
        Rel::DownGap,
        Rel::DownTouch,
        Rel::Up,
        Rel::UpGap,
        Rel::UpTouch,
        Rel::Shun,
        Rel::Ni,
    ];
    let ups: Vec<Rel> = all.iter().copied().filter(|r| r.is_up()).collect();
    let downs: Vec<Rel> = all.iter().copied().filter(|r| r.is_down()).collect();
    let contains: Vec<Rel> = all.iter().copied().filter(|r| r.is_contain()).collect();
    let gaps: Vec<Rel> = all.iter().copied().filter(|r| r.is_gap()).collect();
    assert_eq!(ups, vec![Rel::Up, Rel::UpGap, Rel::UpTouch]);
    assert_eq!(downs, vec![Rel::Down, Rel::DownGap, Rel::DownTouch]);
    assert_eq!(contains, vec![Rel::Same, Rel::Shun, Rel::Ni]);
    assert_eq!(gaps, vec![Rel::DownGap, Rel::UpGap]);
    for r in all {
        let n = r.is_up() as u8 + r.is_down() as u8 + r.is_contain() as u8;
        assert_eq!(n, 1, "{:?}", r);
    }
}

#[test]
fn rel_swapped_is_mirrored() {
    for ph in 0..6i64 {
        for pl in 0..=ph {
            for ch in 0..6i64 {
                for cl in 0..=ch {
                    let r = rel(ph, pl, ch, cl);
                    assert_eq!(rel(ch, cl, ph, pl), mirror(r));
                    assert_eq!(r == Rel::Same, ph == ch && pl == cl);
                }
            }
        }
    }
}

// ---------------------------------------------------------------- merging

#[test]
fn merge_empty_and_single() {
    assert!(merge_and_mark(&[]).is_empty());
    let ks = merge_and_mark(&to_bars(&[(10, 5)]));
    assert_eq!(ks_of(&ks), vec![(0, 0, 0, 10, 5, None, 0)]);
}

#[test]
fn merge_contained_in_up_move_takes_max() {
    let ks = merge_and_mark(&to_bars(&[(10, 5), (12, 7), (11, 8)]));
    // the third bar lies inside the second (Shun): highs and lows go up,
    // the marked bar stays
    assert_eq!(ks_of(&ks), vec![(0, 0, 0, 10, 5, None, 0), (1, 2, 1, 12, 8, Some(Kind::Up), 0)]);
}

#[test]
fn merge_containing_in_down_move_takes_min() {
    let ks = merge_and_mark(&to_bars(&[(12, 7), (10, 5), (11, 4)]));
    // the third bar contains the second (Ni): lows go down, the marked bar moves
    assert_eq!(ks_of(&ks), vec![(0, 0, 0, 12, 7, None, 0), (1, 2, 2, 10, 4, Some(Kind::Down), 0)]);
}

#[test]
fn merge_first_pair_takes_max() {
    let ks = merge_and_mark(&to_bars(&[(10, 5), (9, 6)]));
    assert_eq!(ks_of(&ks), vec![(0, 1, 0, 10, 6, None, 0)]);
}

#[test]
fn merge_marks_fractals() {
    let ks = merge_and_mark(&to_bars(&[(10, 5), (12, 7), (14, 9), (11, 6), (9, 4), (10, 5), (13, 8)]));
    assert_eq!(
        ks_of(&ks),
        vec![
            (0, 0, 0, 10, 5, None, 0),
            (1, 1, 1, 12, 7, Some(Kind::Up), 12),
            (2, 2, 2, 14, 9, Some(Kind::Top), 14),
            (3, 3, 3, 11, 6, Some(Kind::Down), 6),
            (4, 4, 4, 9, 4, Some(Kind::Bottom), 4),
            (5, 5, 5, 10, 5, Some(Kind::Up), 10),
            (6, 6, 6, 13, 8, Some(Kind::Top), 13),
        ]
    );
    let fxs = collect_fractals(&ks);
    // the last K-line carries a provisional top
    assert_eq!(fxs_of(&fxs), vec![(2, true, 14), (4, false, 4), (6, true, 13)]);
    // the bottom is only three K-lines after the top: no stroke yet
    assert_eq!(fxs_of(&build_strokes(&ks, &fxs)), vec![(2, true, 14)]);
}

#[test]
fn merged_klines_partition_bars_without_containment() {
    let bars = to_bars(&[
        (10, 5),
        (12, 7),
        (11, 8),
        (13, 6),
        (9, 4),
        (9, 5),
        (8, 2),
        (12, 3),
        (15, 9),
        (14, 10),
        (14, 10),
        (11, 7),
    ]);
    let ks = merge_and_mark(&bars);
    assert_eq!(ks[0].raw_start, 0);
    assert_eq!(ks[ks.len() - 1].raw_end, bars.len() - 1);
    for w in ks.windows(2) {
        assert_eq!(w[1].raw_start, w[0].raw_end + 1);
        assert!(!rel(w[0].high, w[0].low, w[1].high, w[1].low).is_contain());
    }
    for k in &ks {
        assert!(k.raw_start <= k.mark_bar && k.mark_bar <= k.raw_end);
    }
}

// ---------------------------------------------------------------- strokes

#[test]
fn swings_give_strokes_and_lines() {
    let ks = merge_and_mark(&swing_bars());
    assert_eq!(ks.len(), 24);
    let fxs = collect_fractals(&ks);
    assert_eq!(fxs_of(&fxs), vec![(5, true, 20), (11, false, 3), (17, true, 20), (23, false, 3)]);
    let eps = build_strokes(&ks, &fxs);
    assert_eq!(eps, fxs);
    let lines = strokes_to_lines(&ks, &eps);
    assert_eq!(
        lines_of(&lines),
        vec![
            (5, 11, false, 20, 3, 20, 3),
            (11, 17, true, 20, 3, 3, 20),
            (17, 23, false, 20, 3, 20, 3),
        ]
    );
    for w in eps.windows(2) {
        assert_ne!(w[0].top, w[1].top);
        assert!(w[1].k - w[0].k >= 4);
    }
    for w in lines.windows(2) {
        assert_eq!(w[0].wu, w[1].wen);
        assert_ne!(w[0].dir_up, w[1].dir_up);
    }
}

#[test]
fn strokes_from_repeated_fractals() {
    let ks = merge_and_mark(&swing_bars());
    let fxs = collect_fractals(&ks);
    let want = fxs_of(&fxs);
    let repeated = [fxs[0], fxs[1], fxs[1], Fx { k: 11, top: true, feat: 12 }, fxs[2], fxs[2], fxs[3]];
    assert_eq!(fxs_of(&build_strokes(&ks, &repeated)), want);
    let repeated = [fxs[0], fxs[0], Fx { k: 5, top: false, feat: 15 }, fxs[1], fxs[2], fxs[3], fxs[3]];
    assert_eq!(fxs_of(&build_strokes(&ks, &repeated)), want);
}

#[test]
fn strokes_of_nothing() {
    assert!(build_strokes(&[], &[]).is_empty());
    let ks = merge_and_mark(&swing_bars());
    assert!(strokes_to_lines(&ks, &[]).is_empty());
    let one = [Fx { k: 5, top: true, feat: 20 }];
    assert!(strokes_to_lines(&ks, &one).is_empty());
}

// ---------------------------------------------------------------- pivots

#[test]
fn pivots_in_a_rising_zigzag() {
    let lines = rising_pivot_lines();
    let ps = build_pivots(&lines);
    assert_eq!(pivots_of(&ps), vec![(20, 16, 1, 4, Some(5)), (38, 32, 7, 12, None)]);
    for p in &ps {
        assert!(p.zg >= p.zd);
        assert!(p.end_li >= p.start_li + 2);
    }
}

#[test]
fn pivots_in_a_falling_zigzag() {
    let ps = build_pivots(&falling_pivot_lines());
    assert_eq!(pivots_of(&ps), vec![(44, 40, 1, 4, Some(5)), (34, 30, 5, 12, Some(13))]);
}

#[test]
fn pivots_need_three_lines() {
    assert!(build_pivots(&[]).is_empty());
    let lines = rising_pivot_lines();
    assert!(build_pivots(&lines[..2]).is_empty());
    let ks = merge_and_mark(&swing_bars());
    let fxs = collect_fractals(&ks);
    let swing_lines = strokes_to_lines(&ks, &build_strokes(&ks, &fxs));
    assert!(build_pivots(&swing_lines).is_empty());
}

#[test]
fn pivots_of_mixed_lines() {
    let lines = [
        line(0, 10, true, 85, 100),
        line(10, 20, false, 100, 90),
        line(20, 30, false, 95, 66),
        line(30, 40, true, 65, 72),
        line(40, 50, false, 72, 60),
        line(50, 60, true, 60, 75),
        line(60, 70, false, 75, 62),
    ];
    assert_eq!(pivots_of(&build_pivots(&lines)), vec![(72, 65, 3, 6, None)]);
}

// ---------------------------------------------------------------- segments

#[test]
fn segments_of_zigzags() {
    let segs = build_segments(&rising_pivot_lines());
    assert_eq!(
        segments_of(&segs),
        vec![(true, 0, 35, 10, 40, 0, 9), (false, 35, 50, 40, 30, 7, 12)]
    );
    let segs = build_segments(&falling_pivot_lines());
    assert_eq!(
        segments_of(&segs),
        vec![(false, 0, 35, 50, 24, 0, 9), (true, 35, 50, 24, 36, 7, 13)]
    );
}

#[test]
fn segments_need_three_lines() {
    assert!(build_segments(&[]).is_empty());
    assert!(build_segments(&rising_pivot_lines()[..2]).is_empty());
}

#[test]
fn segments_chain_and_reach_the_end() {
    for lines in [rising_pivot_lines(), falling_pivot_lines()] {
        let segs = build_segments(&lines);
        assert!(!segs.is_empty());
        assert_eq!(segs[segs.len() - 1].end_bi, lines.len() - 1);
        for w in segs.windows(2) {
            assert_ne!(w[0].dir_up, w[1].dir_up);
            assert_eq!(w[0].wu, w[1].wen);
            assert_eq!(w[0].wu_feat, w[1].wen_feat);
            assert!(w[0].start_bi < w[1].start_bi);
            assert!(w[0].wen < w[0].wu);
        }
    }
}

// ---------------------------------------------------------------- feature sequences

#[test]
fn feature_scan_from_start() {
    let up = rising_pivot_lines();
    assert_eq!(dbg_scan(&up), (usize::MAX, false, 6));
    assert_eq!(dbg_scan2(&up), vec![(20, 10), (22, 14), (30, 16), (38, 26), (44, 30), (50, 36)]);
    let down = falling_pivot_lines();
    assert_eq!(dbg_scan(&down), (9, false, 5));
    assert_eq!(dbg_scan2(&down), vec![(46, 40), (44, 36), (38, 30), (34, 24), (36, 28)]);
}

#[test]
fn feature_scan_from_a_stroke() {
    let up = rising_pivot_lines();
    assert_eq!(dbg_scan3(&up, 0, true), (9, 5));
    assert_eq!(dbg_scan3(&up, 3, true), (9, 4));
    assert_eq!(dbg_scan3(&up, 2, false), (usize::MAX, 5));
    assert_eq!(dbg_scan3(&up, 5, false), (usize::MAX, 4));
    let down = falling_pivot_lines();
    assert_eq!(dbg_scan3(&down, 0, true), (usize::MAX, 6));
    assert_eq!(dbg_scan3(&down, 3, true), (usize::MAX, 5));
    assert_eq!(dbg_scan3(&down, 2, false), (9, 5));
    assert_eq!(dbg_scan3(&down, 5, false), (9, 3));
}

#[test]
fn feature_scan_over_a_view() {
    let view = [1usize, 2, 3, 4, 5, 6, 7];
    let up = rising_pivot_lines();
    assert_eq!(dbg_scan_view(&up, &view, true), (None, 4));
    assert_eq!(dbg_feats(&up, &view, true), vec![(20, 14), (22, 16), (30, 26), (40, 32)]);
    let down = falling_pivot_lines();
    assert_eq!(dbg_scan_view(&down, &view, true), (None, 3));
    assert_eq!(dbg_feats(&down, &view, true), vec![(46, 36), (44, 30), (38, 24)]);
    assert_eq!(dbg_scan_view(&down, &[], true), (None, 0));
}

#[test]
fn equal_tops_keep_the_later_stroke() {
    // up segment: the two down strokes both start at 20 and merge
    let lines = [line(0, 5, false, 20, 12), line(5, 10, true, 12, 20), line(10, 15, false, 20, 14)];
    let scan = scan_features(&lines, &[0, 1, 2], true, false);
    assert_eq!(scan.feats.len(), 1);
    let e = scan.feats[0];
    assert_eq!((e.first_bi, e.last_bi, e.high, e.low, e.wen_feat, e.wen_bi), (0, 2, 20, 14, 20, 2));
    assert!(scan.terminated.is_none());
}

#[test]
fn equal_bottoms_keep_the_earlier_stroke() {
    // down segment: the two up strokes both start at 10 and merge
    let lines = [line(0, 5, true, 10, 18), line(5, 10, false, 18, 10), line(10, 15, true, 10, 16)];
    let scan = scan_features(&lines, &[0, 1, 2], false, false);
    assert_eq!(scan.feats.len(), 1);
    let e = scan.feats[0];
    assert_eq!((e.first_bi, e.last_bi, e.high, e.low, e.wen_feat, e.wen_bi), (0, 2, 16, 10, 10, 0));
}

#[test]
fn equal_tops_place_the_segment_end_late() {
    let lines = zigzag_lines(&[12, 16, 14, 20, 12, 20, 12, 14, 10, 18]);
    let scan = scan_features(&lines, &[0, 1, 2, 3, 4, 5, 6, 7, 8], true, false);
    let feats: Vec<_> = scan.feats.iter().map(|e| (e.first_bi, e.last_bi, e.high, e.low, e.wen_bi)).collect();
    assert_eq!(feats, vec![(1, 1, 16, 14, 1), (3, 5, 20, 12, 5), (7, 7, 14, 10, 7)]);
    assert_eq!(scan.terminated, Some((7, false, 5)));
    assert_eq!(
        segments_of(&build_segments(&lines)),
        vec![(true, 0, 25, 12, 20, 0, 7), (false, 25, 40, 20, 10, 5, 8)]
    );
}

// ---------------------------------------------------------------- MACD areas

fn area_hist() -> Vec<i64> {
    let mut hist = vec![0i64; 71];
    for h in hist.iter_mut().take(31).skip(20) {
        *h = -10;
    }
    for (i, h) in hist.iter_mut().enumerate().take(51).skip(40) {
        *h = if i % 2 == 1 { -1 } else { 1 };
    }
    hist
}

#[test]
fn macd_area_parts() {
    let hist = area_hist();
    assert_eq!(macd_area(&hist, 20, 30, false, false), -110);
    assert_eq!(macd_area(&hist, 20, 30, true, false), 0);
    assert_eq!(macd_area(&hist, 20, 30, true, true), 110);
    assert_eq!(macd_area(&hist, 40, 50, false, false), -5);
    assert_eq!(macd_area(&hist, 40, 50, true, false), 6);
    assert_eq!(macd_area(&hist, 40, 50, false, true), 11);
    assert_eq!(macd_area(&hist, 0, 70, true, true), 121);
    assert_eq!(macd_area(&hist, 7, 7, true, false), 0);
    assert_eq!(macd_area(&hist, 30, 20, true, true), 0);
}

// ---------------------------------------------------------------- trading points

fn divergence_lines() -> Vec<Line> {
    vec![
        line(0, 10, true, 85, 100),
        line(10, 20, false, 100, 90),
        line(20, 30, false, 95, 66),
        line(30, 40, true, 65, 72),
        line(40, 50, false, 72, 60),
        line(50, 60, true, 60, 75),
        line(60, 70, false, 75, 62),
    ]
}

#[test]
fn first_and_second_buy_on_divergence() {
    let pivots = [
        Pivot { zg: 100, zd: 90, start_li: 0, end_li: 1, tbs: None },
        Pivot { zg: 80, zd: 70, start_li: 3, end_li: 3, tbs: Some(4) },
    ];
    let out = detect_mmds(&divergence_lines(), &pivots, &area_hist());
    assert_eq!(mmds_of(&out), vec![(50, Mmd::Buy1), (50, Mmd::PzBeichi), (70, Mmd::Buy2)]);
}

#[test]
fn first_and_second_sell_on_divergence() {
    let lines: Vec<Line> = divergence_lines()
        .iter()
        .map(|l| line(l.wen, l.wu, !l.dir_up, 200 - l.wen_feat, 200 - l.wu_feat))
        .collect();
    let pivots = [
        Pivot { zg: 110, zd: 100, start_li: 0, end_li: 1, tbs: None },
        Pivot { zg: 130, zd: 120, start_li: 3, end_li: 3, tbs: Some(4) },
    ];
    let hist: Vec<i64> = area_hist().iter().map(|h| -h).collect();
    let out = detect_mmds(&lines, &pivots, &hist);
    assert_eq!(mmds_of(&out), vec![(50, Mmd::Sell1), (50, Mmd::PzBeichi), (70, Mmd::Sell2)]);
}

#[test]
fn third_buy_and_sell_points() {
    let up = rising_pivot_lines();
    let out = detect_mmds(&up, &build_pivots(&up), &vec![0i64; 80]);
    assert_eq!(mmds_of(&out), vec![(30, Mmd::Buy3)]);
    let down = falling_pivot_lines();
    let out = detect_mmds(&down, &build_pivots(&down), &vec![0i64; 80]);
    assert_eq!(mmds_of(&out), vec![(30, Mmd::Sell3), (70, Mmd::Sell3)]);
}

#[test]
fn no_points_without_pivots() {
    let up = rising_pivot_lines();
    assert!(detect_mmds(&up, &[], &vec![0i64; 80]).is_empty());
    assert!(detect_mmds(&[], &[], &[]).is_empty());
}

#[test]
fn divergence_needs_a_smaller_area() {
    // same structure, but the leaving line has the larger area: no first buy
    let mut hist = area_hist();
    for h in hist.iter_mut().take(51).skip(40) {
        *h = -20;
    }
    let pivots = [
        Pivot { zg: 100, zd: 90, start_li: 0, end_li: 1, tbs: None },
        Pivot { zg: 80, zd: 70, start_li: 3, end_li: 3, tbs: Some(4) },
    ];
    let out = detect_mmds(&divergence_lines(), &pivots, &hist);
    assert!(out.iter().all(|m| m.kind != Mmd::Buy1 && m.kind != Mmd::Buy2));
    for w in out.windows(2) {
        assert!(w[0].bar <= w[1].bar);
    }
}

// ---------------------------------------------------------------- output table

#[test]
fn compute_all_on_no_bars() {
    let o = compute_all(&[], &[]);
    assert_eq!(o.data.len(), ROWS);
    assert!(o.data.iter().all(|row| row.is_empty()));
}

#[test]
fn compute_all_on_swings() {
    let bars = swing_bars();
    let hist = vec![0i64; bars.len()];
    let o = compute_all(&bars, &hist);
    assert_eq!(o.data.len(), ROWS);
    for row in &o.data {
        assert_eq!(row.len(), bars.len());
    }
    let expected = [
        (1, 5, Cell::Mark(1)),
        (1, 11, Cell::Mark(-1)),
        (1, 17, Cell::Mark(1)),
        (1, 23, Cell::Mark(-1)),
        (2, 5, Cell::Price(20)),
        (2, 11, Cell::Price(3)),
        (2, 17, Cell::Price(20)),
        (2, 23, Cell::Price(3)),
        (3, 11, Cell::Mark(-1)),
        (3, 17, Cell::Mark(1)),
        (3, 23, Cell::Mark(-1)),
        (4, 11, Cell::Price(3)),
        (4, 17, Cell::Price(20)),
        (4, 23, Cell::Price(3)),
    ];
    let mut want = vec![vec![Cell::Empty; bars.len()]; ROWS];
    for (m, bar, c) in expected {
        want[m - 1][bar] = c;
    }
    assert_eq!(o.data, want);
    assert_eq!(o.data[FX_MARK - 1][5], Cell::Mark(1));
    assert_eq!(o.data[FX_PRICE - 1][23], Cell::Price(3));
    assert_eq!(o.data[BI_MARK - 1][5], Cell::Empty);
    assert_eq!(o.data[BI_PRICE - 1][17], Cell::Price(20));
    assert!(o.data[XD_MARK - 1].iter().all(|c| *c == Cell::Empty));
    assert!(o.data[PZ_BEICHI - 1].iter().all(|c| *c == Cell::Empty));
    assert!(o.data[RESV19 - 1].iter().all(|c| *c == Cell::Empty));
    assert!(o.data[RESV20 - 1].iter().all(|c| *c == Cell::Empty));
}
