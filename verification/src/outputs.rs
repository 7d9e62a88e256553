//! The per-bar output table: one row per mark (see `mark`), one cell per raw bar.

use vstd::prelude::*;
use crate::mark::{
    BI_MARK, BI_PRICE, BI_ZS_START, BI_ZS_ZD, BI_ZS_ZG, BUY1, BUY2, BUY3, FX_MARK, FX_PRICE,
    PZ_BEICHI, RESV19, RESV20, ROWS, SELL1, SELL2, SELL3, XD_MARK, XD_PRICE, XD_ZS_ZD, XD_ZS_ZG,
};
use crate::chan::kline::{
    collect_fractals, lemma_collect_fractals, lemma_merge_and_mark, lemma_sorted_is_ordered, max_i64,
    merge_and_mark, min_i64, spec_collect_fractals, spec_merge_and_mark, Bar, ChanK, Fx, Kind,
    covers_bars,
};
use crate::chan::stroke::{
    build_strokes, lemma_stroke_lines, lemma_strokes_ok, lines_alternate, lines_below,
    lines_connected, lines_ordered, spec_build_strokes, spec_strokes_to_lines, strokes_to_lines,
    Line,
};
use crate::chan::pivot::{
    build_pivots, lemma_pivot_range, lemma_pivots_ok, pivots_ok, pivot_ok, spec_build_pivots, Pivot,
};
use crate::chan::segment::{
    build_segments, lemma_segments_ok, segments_chain, segments_forward, segs_below,
    spec_build_segments, Segment,
};
use crate::chan::signal::{
    detect_mmds, lines_in_hist, marks_below, max_hist, pivot_refs_ok, spec_detect_mmds, Mmd,
    MmdMark,
};

verus! {

/// One output cell.
#[derive(Clone, Copy, PartialEq, Eq, Debug, Structural)]
pub enum Cell {
    /// nothing drawn (0)
    Empty,
    /// a flag: 1 or -1
    Mark(i8),
    /// a price key
    Price(i64),
}

/// The output table, rows indexed by mark - 1.
pub struct Outputs {
    pub data: Vec<Vec<Cell>>,
}

pub type Grid = Seq<Seq<Cell>>;

pub open spec fn grid_of(data: Seq<Vec<Cell>>) -> Grid {
    Seq::new(data.len(), |i: int| data[i]@)
}

impl Outputs {
    pub open spec fn grid(&self) -> Grid {
        grid_of(self.data@)
    }
}

/// `ROWS` rows of `n` cells each.
pub open spec fn dims_ok(g: Grid, n: int) -> bool {
    &&& g.len() == ROWS
    &&& forall|r: int| 0 <= r < g.len() ==> #[trigger] g[r].len() == n
}

pub open spec fn empty_grid(n: int) -> Grid {
    Seq::new(ROWS as nat, |r: int| Seq::new(n as nat, |j: int| Cell::Empty))
}

/// The table with cell (`mark`, `bar`) set to `v`.
pub open spec fn put(g: Grid, mark: int, bar: int, v: Cell) -> Grid {
    g.update(mark - 1, g[mark - 1].update(bar, v))
}

pub open spec fn sign(b: bool) -> i8 {
    if b {
        1i8
    } else {
        -1i8
    }
}

/// Fractal marks of one K-line: 1/-1 for top/bottom and its value, at its mark bar.
pub open spec fn fx_put(g: Grid, k: ChanK) -> Grid {
    match k.kind {
        Some(Kind::Top) => put(
            put(g, FX_MARK as int, k.mark_bar as int, Cell::Mark(1i8)),
            FX_PRICE as int,
            k.mark_bar as int,
            Cell::Price(k.feat),
        ),
        Some(Kind::Bottom) => put(
            put(g, FX_MARK as int, k.mark_bar as int, Cell::Mark(-1i8)),
            FX_PRICE as int,
            k.mark_bar as int,
            Cell::Price(k.feat),
        ),
        _ => g,
    }
}

pub open spec fn fx_phase(g: Grid, ks: Seq<ChanK>, m: int) -> Grid
    decreases m,
{
    if m <= 0 {
        g
    } else {
        fx_put(fx_phase(g, ks, m - 1), ks[m - 1])
    }
}

/// Stroke end mark (1 up, -1 down) and value at the end endpoint's mark bar.
pub open spec fn bi_put(g: Grid, ks: Seq<ChanK>, b: Fx) -> Grid {
    let bar = ks[b.k as int].mark_bar as int;
    put(put(g, BI_MARK as int, bar, Cell::Mark(sign(b.top))), BI_PRICE as int, bar, Cell::Price(b.feat))
}

/// Marks of the ends of the first `m` strokes.
pub open spec fn bi_phase(g: Grid, ks: Seq<ChanK>, eps: Seq<Fx>, m: int) -> Grid
    decreases m,
{
    if m <= 0 {
        g
    } else {
        bi_put(bi_phase(g, ks, eps, m - 1), ks, eps[m])
    }
}

/// Pivot edges on rows `rg`/`rd` over bars `[s, m)`.
pub open spec fn zone_fill(g: Grid, rg: int, rd: int, zg: i64, zd: i64, s: int, m: int) -> Grid
    decreases m - s,
{
    if m <= s {
        g
    } else {
        let g1 = zone_fill(g, rg, rd, zg, zd, s, m - 1);
        put(put(g1, rg, m - 1, Cell::Price(zg)), rd, m - 1, Cell::Price(zd))
    }
}

/// A stroke pivot: its edges over its bars and a 1 at its first bar.
pub open spec fn zs_put(g: Grid, lines: Seq<Line>, p: Pivot) -> Grid {
    let s = lines[p.start_li as int].wen as int;
    let e = lines[p.end_li as int].wu as int;
    put(
        zone_fill(g, BI_ZS_ZG as int, BI_ZS_ZD as int, p.zg, p.zd, s, e + 1),
        BI_ZS_START as int,
        s,
        Cell::Mark(1),
    )
}

pub open spec fn zs_phase(g: Grid, lines: Seq<Line>, ps: Seq<Pivot>, m: int) -> Grid
    decreases m,
{
    if m <= 0 {
        g
    } else {
        zs_put(zs_phase(g, lines, ps, m - 1), lines, ps[m - 1])
    }
}

/// Segment endpoints: start marked against the direction, end with it,
/// each with its value.
pub open spec fn xd_put(g: Grid, s: Segment) -> Grid {
    let g1 = put(g, XD_MARK as int, s.wen as int, Cell::Mark(sign(!s.dir_up)));
    let g2 = put(g1, XD_PRICE as int, s.wen as int, Cell::Price(s.wen_feat));
    let g3 = put(g2, XD_MARK as int, s.wu as int, Cell::Mark(sign(s.dir_up)));
    put(g3, XD_PRICE as int, s.wu as int, Cell::Price(s.wu_feat))
}

pub open spec fn xd_phase(g: Grid, segs: Seq<Segment>, m: int) -> Grid
    decreases m,
{
    if m <= 0 {
        g
    } else {
        xd_put(xd_phase(g, segs, m - 1), segs[m - 1])
    }
}

/// A segment seen as a line from its start to its end.
pub open spec fn seg_line(s: Segment) -> Line {
    Line {
        wen: s.wen,
        wu: s.wu,
        dir_up: s.dir_up,
        high: max_i64(s.wen_feat, s.wu_feat),
        low: min_i64(s.wen_feat, s.wu_feat),
        wen_feat: s.wen_feat,
        wu_feat: s.wu_feat,
    }
}

pub open spec fn seg_lines(segs: Seq<Segment>) -> Seq<Line> {
    segs.map_values(|s: Segment| seg_line(s))
}

/// A segment pivot: its edges over its bars.
pub open spec fn xd_zs_put(g: Grid, lines: Seq<Line>, p: Pivot) -> Grid {
    let s = lines[p.start_li as int].wen as int;
    let e = lines[p.end_li as int].wu as int;
    zone_fill(g, XD_ZS_ZG as int, XD_ZS_ZD as int, p.zg, p.zd, s, e + 1)
}

pub open spec fn xd_zs_phase(g: Grid, lines: Seq<Line>, ps: Seq<Pivot>, m: int) -> Grid
    decreases m,
{
    if m <= 0 {
        g
    } else {
        xd_zs_put(xd_zs_phase(g, lines, ps, m - 1), lines, ps[m - 1])
    }
}

/// Output row of a buy/sell point kind.
pub open spec fn mmd_row(k: Mmd) -> int {
    match k {
        Mmd::Buy1 => BUY1 as int,
        Mmd::Sell1 => SELL1 as int,
        Mmd::Buy2 => BUY2 as int,
        Mmd::Sell2 => SELL2 as int,
        Mmd::Buy3 => BUY3 as int,
        Mmd::Sell3 => SELL3 as int,
        Mmd::PzBeichi => PZ_BEICHI as int,
    }
}

pub open spec fn mmd_phase(g: Grid, ms: Seq<MmdMark>, m: int) -> Grid
    decreases m,
{
    if m <= 0 {
        g
    } else {
        put(mmd_phase(g, ms, m - 1), mmd_row(ms[m - 1].kind), ms[m - 1].bar as int, Cell::Mark(1))
    }
}

/// The output table of `compute_all`: the whole pipeline's marks written in
/// order (later writes win) onto an empty table.
pub open spec fn spec_compute_all(bars: Seq<Bar>, hist: Seq<i64>) -> Grid {
    let n = bars.len() as int;
    let ks = spec_merge_and_mark(bars);
    let g1 = fx_phase(empty_grid(n), ks, ks.len() as int);
    let eps = spec_build_strokes(ks, spec_collect_fractals(ks));
    let g2 = bi_phase(g1, ks, eps, if eps.len() > 0 { eps.len() - 1 } else { 0 });
    let lines = spec_strokes_to_lines(ks, eps);
    let ps = spec_build_pivots(lines);
    let g3 = zs_phase(g2, lines, ps, ps.len() as int);
    let segs = spec_build_segments(lines);
    let g4 = xd_phase(g3, segs, segs.len() as int);
    let sl = seg_lines(segs);
    let xps = spec_build_pivots(sl);
    let g5 = xd_zs_phase(g4, sl, xps, xps.len() as int);
    let ms = spec_detect_mmds(lines, ps, hist);
    mmd_phase(g5, ms, ms.len() as int)
}

/// Rows from `XD_ZS_ZD` on (the reserved ones) are written by no phase.
pub open spec fn untouched_row(r: int) -> bool {
    XD_ZS_ZD <= r < ROWS
}

proof fn lemma_put_keeps(g: Grid, mark: int, bar: int, v: Cell, r: int)
    requires
        g.len() == ROWS,
        1 <= mark <= XD_ZS_ZD,
        untouched_row(r),
    ensures
        put(g, mark, bar, v).len() == ROWS,
        put(g, mark, bar, v)[r] == g[r],
{
}

proof fn lemma_fx_phase_keeps(g: Grid, ks: Seq<ChanK>, m: int, r: int)
    requires
        g.len() == ROWS,
        untouched_row(r),
    ensures
        fx_phase(g, ks, m).len() == ROWS,
        fx_phase(g, ks, m)[r] == g[r],
    decreases m,
{
    if m > 0 {
        lemma_fx_phase_keeps(g, ks, m - 1, r);
        let g0 = fx_phase(g, ks, m - 1);
        let k = ks[m - 1];
        let bar = k.mark_bar as int;
        let top = put(g0, FX_MARK as int, bar, Cell::Mark(1i8));
        let bottom = put(g0, FX_MARK as int, bar, Cell::Mark(-1i8));
        lemma_put_keeps(g0, FX_MARK as int, bar, Cell::Mark(1i8), r);
        lemma_put_keeps(g0, FX_MARK as int, bar, Cell::Mark(-1i8), r);
        lemma_put_keeps(top, FX_PRICE as int, bar, Cell::Price(k.feat), r);
        lemma_put_keeps(bottom, FX_PRICE as int, bar, Cell::Price(k.feat), r);
    }
}

proof fn lemma_bi_phase_keeps(g: Grid, ks: Seq<ChanK>, eps: Seq<Fx>, m: int, r: int)
    requires
        g.len() == ROWS,
        untouched_row(r),
    ensures
        bi_phase(g, ks, eps, m).len() == ROWS,
        bi_phase(g, ks, eps, m)[r] == g[r],
    decreases m,
{
    if m > 0 {
        lemma_bi_phase_keeps(g, ks, eps, m - 1, r);
        let g0 = bi_phase(g, ks, eps, m - 1);
        let b = eps[m];
        let bar = ks[b.k as int].mark_bar as int;
        let g1 = put(g0, BI_MARK as int, bar, Cell::Mark(sign(b.top)));
        lemma_put_keeps(g0, BI_MARK as int, bar, Cell::Mark(sign(b.top)), r);
        lemma_put_keeps(g1, BI_PRICE as int, bar, Cell::Price(b.feat), r);
    }
}

proof fn lemma_zone_fill_keeps(g: Grid, rg: int, rd: int, zg: i64, zd: i64, s: int, m: int, r: int)
    requires
        g.len() == ROWS,
        1 <= rg <= XD_ZS_ZD,
        1 <= rd <= XD_ZS_ZD,
        untouched_row(r),
    ensures
        zone_fill(g, rg, rd, zg, zd, s, m).len() == ROWS,
        zone_fill(g, rg, rd, zg, zd, s, m)[r] == g[r],
    decreases m - s,
{
    if m > s {
        lemma_zone_fill_keeps(g, rg, rd, zg, zd, s, m - 1, r);
        let g1 = zone_fill(g, rg, rd, zg, zd, s, m - 1);
        lemma_put_keeps(g1, rg, m - 1, Cell::Price(zg), r);
        lemma_put_keeps(put(g1, rg, m - 1, Cell::Price(zg)), rd, m - 1, Cell::Price(zd), r);
    }
}

proof fn lemma_zs_phase_keeps(g: Grid, lines: Seq<Line>, ps: Seq<Pivot>, m: int, r: int)
    requires
        g.len() == ROWS,
        untouched_row(r),
    ensures
        zs_phase(g, lines, ps, m).len() == ROWS,
        zs_phase(g, lines, ps, m)[r] == g[r],
    decreases m,
{
    if m > 0 {
        lemma_zs_phase_keeps(g, lines, ps, m - 1, r);
        let g0 = zs_phase(g, lines, ps, m - 1);
        let p = ps[m - 1];
        let s = lines[p.start_li as int].wen as int;
        let e = lines[p.end_li as int].wu as int;
        lemma_zone_fill_keeps(g0, BI_ZS_ZG as int, BI_ZS_ZD as int, p.zg, p.zd, s, e + 1, r);
        let g1 = zone_fill(g0, BI_ZS_ZG as int, BI_ZS_ZD as int, p.zg, p.zd, s, e + 1);
        lemma_put_keeps(g1, BI_ZS_START as int, s, Cell::Mark(1), r);
    }
}

proof fn lemma_xd_phase_keeps(g: Grid, segs: Seq<Segment>, m: int, r: int)
    requires
        g.len() == ROWS,
        untouched_row(r),
    ensures
        xd_phase(g, segs, m).len() == ROWS,
        xd_phase(g, segs, m)[r] == g[r],
    decreases m,
{
    if m > 0 {
        lemma_xd_phase_keeps(g, segs, m - 1, r);
        let g0 = xd_phase(g, segs, m - 1);
        let s = segs[m - 1];
        let g1 = put(g0, XD_MARK as int, s.wen as int, Cell::Mark(sign(!s.dir_up)));
        let g2 = put(g1, XD_PRICE as int, s.wen as int, Cell::Price(s.wen_feat));
        let g3 = put(g2, XD_MARK as int, s.wu as int, Cell::Mark(sign(s.dir_up)));
        lemma_put_keeps(g0, XD_MARK as int, s.wen as int, Cell::Mark(sign(!s.dir_up)), r);
        lemma_put_keeps(g1, XD_PRICE as int, s.wen as int, Cell::Price(s.wen_feat), r);
        lemma_put_keeps(g2, XD_MARK as int, s.wu as int, Cell::Mark(sign(s.dir_up)), r);
        lemma_put_keeps(g3, XD_PRICE as int, s.wu as int, Cell::Price(s.wu_feat), r);
    }
}

proof fn lemma_xd_zs_phase_keeps(g: Grid, lines: Seq<Line>, ps: Seq<Pivot>, m: int, r: int)
    requires
        g.len() == ROWS,
        untouched_row(r),
    ensures
        xd_zs_phase(g, lines, ps, m).len() == ROWS,
        xd_zs_phase(g, lines, ps, m)[r] == g[r],
    decreases m,
{
    if m > 0 {
        lemma_xd_zs_phase_keeps(g, lines, ps, m - 1, r);
        let g0 = xd_zs_phase(g, lines, ps, m - 1);
        let p = ps[m - 1];
        let s = lines[p.start_li as int].wen as int;
        let e = lines[p.end_li as int].wu as int;
        lemma_zone_fill_keeps(g0, XD_ZS_ZG as int, XD_ZS_ZD as int, p.zg, p.zd, s, e + 1, r);
    }
}

proof fn lemma_mmd_phase_keeps(g: Grid, ms: Seq<MmdMark>, m: int, r: int)
    requires
        g.len() == ROWS,
        untouched_row(r),
    ensures
        mmd_phase(g, ms, m).len() == ROWS,
        mmd_phase(g, ms, m)[r] == g[r],
    decreases m,
{
    if m > 0 {
        lemma_mmd_phase_keeps(g, ms, m - 1, r);
        let g0 = mmd_phase(g, ms, m - 1);
        lemma_put_keeps(g0, mmd_row(ms[m - 1].kind), ms[m - 1].bar as int, Cell::Mark(1), r);
    }
}

/// The reserved rows are written by no stage: on every input they stay
/// empty, one empty cell per bar.
pub proof fn lemma_reserved_rows_empty(bars: Seq<Bar>, hist: Seq<i64>)
    ensures
        spec_compute_all(bars, hist)[RESV19 - 1] == empty_grid(bars.len() as int)[RESV19 - 1],
        spec_compute_all(bars, hist)[RESV20 - 1] == empty_grid(bars.len() as int)[RESV20 - 1],
        forall|j: int|
            0 <= j < bars.len() ==> #[trigger] spec_compute_all(bars, hist)[RESV19 - 1][j] == Cell::Empty
                && spec_compute_all(bars, hist)[RESV20 - 1][j] == Cell::Empty,
{
    let n = bars.len() as int;
    let ks = spec_merge_and_mark(bars);
    let g0 = empty_grid(n);
    let g1 = fx_phase(g0, ks, ks.len() as int);
    let eps = spec_build_strokes(ks, spec_collect_fractals(ks));
    let m2 = if eps.len() > 0 { eps.len() - 1 } else { 0 };
    let g2 = bi_phase(g1, ks, eps, m2);
    let lines = spec_strokes_to_lines(ks, eps);
    let ps = spec_build_pivots(lines);
    let g3 = zs_phase(g2, lines, ps, ps.len() as int);
    let segs = spec_build_segments(lines);
    let g4 = xd_phase(g3, segs, segs.len() as int);
    let sl = seg_lines(segs);
    let xps = spec_build_pivots(sl);
    let g5 = xd_zs_phase(g4, sl, xps, xps.len() as int);
    let ms = spec_detect_mmds(lines, ps, hist);
    assert forall|r: int| untouched_row(r) implies #[trigger] spec_compute_all(bars, hist)[r] == g0[r] by {
        lemma_fx_phase_keeps(g0, ks, ks.len() as int, r);
        lemma_bi_phase_keeps(g1, ks, eps, m2, r);
        lemma_zs_phase_keeps(g2, lines, ps, ps.len() as int, r);
        lemma_xd_phase_keeps(g3, segs, segs.len() as int, r);
        lemma_xd_zs_phase_keeps(g4, sl, xps, xps.len() as int, r);
        lemma_mmd_phase_keeps(g5, ms, ms.len() as int, r);
    }
    assert(untouched_row(RESV19 - 1));
    assert(untouched_row(RESV20 - 1));
}

proof fn lemma_put_dims(g: Grid, n: int, mark: int, bar: int, v: Cell)
    requires
        dims_ok(g, n),
        1 <= mark <= ROWS,
        0 <= bar < n,
    ensures
        dims_ok(put(g, mark, bar, v), n),
{
    let r = put(g, mark, bar, v);
    assert forall|i: int| 0 <= i < r.len() implies #[trigger] r[i].len() == n by {
        assert(g[i].len() == n);
    }
}

/// Sets cell (`mark`, `bar`).
fn set(out: &mut Vec<Vec<Cell>>, mark: usize, bar: usize, v: Cell)
    requires
        1 <= mark <= old(out)@.len(),
        bar < old(out)@[mark - 1]@.len(),
    ensures
        grid_of(final(out)@) == put(grid_of(old(out)@), mark as int, bar as int, v),
{
    let ghost before = grid_of(out@);
    let mut row: Vec<Cell> = Vec::new();
    out.set_and_swap(mark - 1, &mut row);
    row.set(bar, v);
    out.set_and_swap(mark - 1, &mut row);
    proof {
        assert(grid_of(out@) =~= put(before, mark as int, bar as int, v));
    }
}

fn set_checked(out: &mut Vec<Vec<Cell>>, n: usize, mark: usize, bar: usize, v: Cell)
    requires
        dims_ok(grid_of(old(out)@), n as int),
        1 <= mark <= ROWS,
        bar < n,
    ensures
        grid_of(final(out)@) == put(grid_of(old(out)@), mark as int, bar as int, v),
        dims_ok(grid_of(final(out)@), n as int),
{
    proof {
        assert(grid_of(out@)[mark - 1] == out@[mark - 1]@);
        lemma_put_dims(grid_of(out@), n as int, mark as int, bar as int, v);
    }
    set(out, mark, bar, v);
}

fn empty_table(n: usize) -> (out: Vec<Vec<Cell>>)
    ensures
        grid_of(out@) == empty_grid(n as int),
{
    let mut out: Vec<Vec<Cell>> = Vec::new();
    let mut r: usize = 0;
    while r < ROWS
        invariant
            r <= ROWS,
            out@.len() == r,
            forall|i: int| 0 <= i < r ==> #[trigger] out@[i]@ == Seq::new(n as nat, |j: int| Cell::Empty),
        decreases ROWS - r,
    {
        let mut row: Vec<Cell> = Vec::new();
        let mut j: usize = 0;
        while j < n
            invariant
                j <= n,
                row@ == Seq::new(j as nat, |t: int| Cell::Empty),
            decreases n - j,
        {
            row.push(Cell::Empty);
            j += 1;
            proof {
                assert(row@ =~= Seq::new(j as nat, |t: int| Cell::Empty));
            }
        }
        out.push(row);
        r += 1;
    }
    proof {
        assert(grid_of(out@) =~= empty_grid(n as int));
    }
    out
}

/// Writes edges `zg`/`zd` on rows `rg`/`rd` over bars `s..=e`.
fn fill_zone(out: &mut Vec<Vec<Cell>>, n: usize, rg: usize, rd: usize, zg: i64, zd: i64, s: usize, e: usize)
    requires
        dims_ok(grid_of(old(out)@), n as int),
        1 <= rg <= ROWS,
        1 <= rd <= ROWS,
        e < n,
    ensures
        grid_of(final(out)@) == zone_fill(
            grid_of(old(out)@),
            rg as int,
            rd as int,
            zg,
            zd,
            s as int,
            e + 1,
        ),
        dims_ok(grid_of(final(out)@), n as int),
{
    let ghost g0 = grid_of(out@);
    if s > e {
        return;
    }
    let mut bar = s;
    while bar <= e
        invariant
            s <= bar <= e + 1,
            e < n,
            1 <= rg <= ROWS,
            1 <= rd <= ROWS,
            dims_ok(grid_of(out@), n as int),
            grid_of(out@) == zone_fill(g0, rg as int, rd as int, zg, zd, s as int, bar as int),
        decreases e + 1 - bar,
    {
        set_checked(out, n, rg, bar, Cell::Price(zg));
        set_checked(out, n, rd, bar, Cell::Price(zd));
        bar += 1;
    }
}

/// Endpoints of the lines between endpoints `eps` lie below `n`.
proof fn lemma_stroke_lines_below(ks: Seq<ChanK>, eps: Seq<Fx>, n: int)
    requires
        forall|j: int| 0 <= j < eps.len() ==> #[trigger] eps[j].k < ks.len(),
        forall|i: int| 0 <= i < ks.len() ==> #[trigger] ks[i].mark_bar < n,
    ensures
        lines_below(spec_strokes_to_lines(ks, eps), n),
{
    let ls = spec_strokes_to_lines(ks, eps);
    assert forall|j: int| 0 <= j < ls.len() implies ls[j].wen < n && ls[j].wu < n by {
        assert(eps[j].k < ks.len() && eps[j + 1].k < ks.len());
    }
}

/// Consecutive segments, seen as lines, form a connected line sequence.
pub proof fn lemma_segment_lines_connected(bis: Seq<Line>, segs: Seq<Segment>)
    requires
        segments_chain(bis, segs),
    ensures
        lines_connected(seg_lines(segs)),
        lines_alternate(seg_lines(segs)),
{
    let sl = seg_lines(segs);
    assert forall|j: int| #![trigger sl[j]] 0 <= j < sl.len() - 1 implies sl[j].wu == sl[j + 1].wen
        && sl[j].wu_feat == sl[j + 1].wen_feat by {
        assert(segs[j].wu == segs[j + 1].wen);
    }
    assert forall|j: int| 0 <= j < sl.len() - 1 implies #[trigger] sl[j].dir_up != sl[j + 1].dir_up by {
        assert(segs[j].dir_up != segs[j + 1].dir_up);
    }
}

/// The stroke lines of the pipeline on `bars`.
pub open spec fn pipeline_lines(bars: Seq<Bar>) -> Seq<Line> {
    let ks = spec_merge_and_mark(bars);
    spec_strokes_to_lines(ks, spec_build_strokes(ks, spec_collect_fractals(ks)))
}

/// Stroke lines built on K-lines covering `n` raw bars are connected,
/// alternate and go forward in time.
proof fn lemma_lines_from_klines(ks: Seq<ChanK>, n: int)
    requires
        covers_bars(ks, n),
        ks.len() <= usize::MAX,
    ensures
        ({
            let lines = spec_strokes_to_lines(ks, spec_build_strokes(ks, spec_collect_fractals(ks)));
            &&& lines_connected(lines)
            &&& lines_alternate(lines)
            &&& lines_ordered(lines)
            &&& lines.len() <= usize::MAX
        }),
{
    lemma_collect_fractals(ks);
    let fxs = spec_collect_fractals(ks);
    lemma_sorted_is_ordered(ks, fxs);
    lemma_strokes_ok(ks, fxs);
    let eps = spec_build_strokes(ks, fxs);
    assert forall|j: int| 0 <= j < eps.len() implies #[trigger] eps[j].k < ks.len() by {
        assert(fxs.contains(eps[j]));
        let t = choose|t: int| 0 <= t < fxs.len() && fxs[t] == eps[j];
        assert(fxs[t].k < ks.len());
    }
    lemma_stroke_lines(ks, eps);
    if eps.len() > 0 {
        lemma_alternating_len(ks, eps);
    }
}

/// The pipeline's stroke lines are connected, alternate and go forward in time.
pub proof fn lemma_pipeline_lines(bars: Seq<Bar>)
    requires
        bars.len() <= usize::MAX,
    ensures
        lines_connected(pipeline_lines(bars)),
        lines_alternate(pipeline_lines(bars)),
        lines_ordered(pipeline_lines(bars)),
        pipeline_lines(bars).len() <= usize::MAX,
{
    lemma_merge_and_mark(bars);
    let ks = spec_merge_and_mark(bars);
    assert(ks.len() <= usize::MAX) by {
        if ks.len() > 0 {
            crate::chan::stroke::lemma_mark_bar_increasing_len(ks, bars.len() as int);
        }
    }
    lemma_lines_from_klines(ks, bars.len() as int);
}

proof fn lemma_alternating_len(ks: Seq<ChanK>, eps: Seq<Fx>)
    requires
        forall|j: int| 0 <= j < eps.len() ==> #[trigger] eps[j].k < ks.len(),
        crate::chan::stroke::strokes_alternate(eps),
        eps.len() > 0,
    ensures
        eps.len() <= ks.len(),
{
    assert forall|j: int| 0 <= j < eps.len() implies #[trigger] eps[j].k >= j by {
        lemma_k_grows(eps, j);
    }
    assert(eps[eps.len() - 1].k >= eps.len() - 1);
}

proof fn lemma_k_grows(eps: Seq<Fx>, j: int)
    requires
        crate::chan::stroke::strokes_alternate(eps),
        0 <= j < eps.len(),
    ensures
        eps[j].k >= j,
    decreases j,
{
    if j > 0 {
        lemma_k_grows(eps, j - 1);
        assert(eps[j - 1].k + 4 <= eps[j].k);
    }
}

/// Pivots and segments of connected, time-ordered lines: stroke pivots are
/// well formed with `zg >= zd`; segments alternate, connect, go forward (each
/// ends after it starts, each starts after the previous one) and the last one
/// reaches the last line; segment pivots are well formed with `zg >= zd`.
pub proof fn lemma_lines_structure(lines: Seq<Line>)
    requires
        lines_connected(lines),
        lines_ordered(lines),
        lines.len() <= usize::MAX,
    ensures
        ({
            let ps = spec_build_pivots(lines);
            let segs = spec_build_segments(lines);
            let sl = seg_lines(segs);
            let xps = spec_build_pivots(sl);
            &&& pivots_ok(lines, ps)
            &&& forall|k: int| 0 <= k < ps.len() ==> #[trigger] ps[k].zg >= ps[k].zd
            &&& segments_chain(lines, segs)
            &&& segments_forward(segs)
            &&& forall|k: int| 0 <= k < segs.len() - 1 ==> #[trigger] segs[k].wen < segs[k + 1].wen
            &&& (segs.len() > 0 ==> segs.last().end_bi == lines.len() - 1)
            &&& pivots_ok(sl, xps)
            &&& forall|k: int| 0 <= k < xps.len() ==> #[trigger] xps[k].zg >= xps[k].zd
        }),
{
    lemma_pivots_ok(lines);
    let ps = spec_build_pivots(lines);
    assert forall|k: int| 0 <= k < ps.len() implies #[trigger] ps[k].zg >= ps[k].zd by {
        lemma_pivot_range(lines, ps[k]);
    }
    lemma_segments_ok(lines, 0);
    let segs = spec_build_segments(lines);
    assert forall|k: int| 0 <= k < segs.len() - 1 implies #[trigger] segs[k].wen < segs[k + 1].wen by {
        assert(segs[k].wen < segs[k].wu);
        assert(segs[k].wu == segs[k + 1].wen);
    }
    lemma_segment_lines_connected(lines, segs);
    let sl = seg_lines(segs);
    assert(sl.len() <= usize::MAX) by {
        assert(segs.len() <= lines.len()) by {
            lemma_segments_count(lines, segs);
        }
    }
    lemma_pivots_ok(sl);
    let xps = spec_build_pivots(sl);
    assert forall|k: int| 0 <= k < xps.len() implies #[trigger] xps[k].zg >= xps[k].zd by {
        lemma_pivot_range(sl, xps[k]);
    }
}

proof fn lemma_segments_count(lines: Seq<Line>, segs: Seq<Segment>)
    requires
        segments_chain(lines, segs),
    ensures
        segs.len() <= lines.len(),
{
    if segs.len() > 0 {
        assert forall|j: int| 0 <= j < segs.len() implies #[trigger] segs[j].start_bi >= j by {
            lemma_start_grows(lines, segs, j);
        }
        assert(segs[segs.len() - 1].start_bi >= segs.len() - 1);
        assert(crate::chan::segment::seg_anchored(lines, segs[segs.len() - 1]));
    }
}

proof fn lemma_start_grows(lines: Seq<Line>, segs: Seq<Segment>, j: int)
    requires
        segments_chain(lines, segs),
        0 <= j < segs.len(),
    ensures
        segs[j].start_bi >= j,
    decreases j,
{
    if j > 0 {
        lemma_start_grows(lines, segs, j - 1);
        assert(segs[j - 1].start_bi < segs[j].start_bi);
    }
}

/// Structure of the whole pipeline on any bars (see `lemma_pipeline_lines`
/// and `lemma_lines_structure`).
pub proof fn lemma_pipeline_structure(bars: Seq<Bar>)
    requires
        bars.len() <= usize::MAX,
    ensures
        ({
            let lines = pipeline_lines(bars);
            let ps = spec_build_pivots(lines);
            let segs = spec_build_segments(lines);
            let sl = seg_lines(segs);
            let xps = spec_build_pivots(sl);
            &&& lines_connected(lines)
            &&& lines_alternate(lines)
            &&& lines_ordered(lines)
            &&& pivots_ok(lines, ps)
            &&& forall|k: int| 0 <= k < ps.len() ==> #[trigger] ps[k].zg >= ps[k].zd
            &&& segments_chain(lines, segs)
            &&& segments_forward(segs)
            &&& forall|k: int| 0 <= k < segs.len() - 1 ==> #[trigger] segs[k].wen < segs[k + 1].wen
            &&& (segs.len() > 0 ==> segs.last().end_bi == lines.len() - 1)
            &&& pivots_ok(sl, xps)
            &&& forall|k: int| 0 <= k < xps.len() ==> #[trigger] xps[k].zg >= xps[k].zd
        }),
{
    lemma_pipeline_lines(bars);
    lemma_lines_structure(pipeline_lines(bars));
}

fn write_fractals(data: &mut Vec<Vec<Cell>>, n: usize, ks: &Vec<ChanK>)
    requires
        dims_ok(grid_of(old(data)@), n as int),
        forall|t: int| 0 <= t < ks@.len() ==> #[trigger] ks@[t].mark_bar < n,
    ensures
        dims_ok(grid_of(final(data)@), n as int),
        grid_of(final(data)@) == fx_phase(grid_of(old(data)@), ks@, ks@.len() as int),
{
    let ghost g0 = grid_of(data@);
    let mut i: usize = 0;
    while i < ks.len()
        invariant
            i <= ks@.len(),
            forall|t: int| 0 <= t < ks@.len() ==> #[trigger] ks@[t].mark_bar < n,
            dims_ok(grid_of(data@), n as int),
            grid_of(data@) == fx_phase(g0, ks@, i as int),
        decreases ks@.len() - i,
    {
        let k = ks[i];
        proof {
            assert(ks@[i as int].mark_bar < n);
        }
        match k.kind {
            Some(Kind::Top) => {
                set_checked(data, n, FX_MARK, k.mark_bar, Cell::Mark(1));
                set_checked(data, n, FX_PRICE, k.mark_bar, Cell::Price(k.feat));
            },
            Some(Kind::Bottom) => {
                set_checked(data, n, FX_MARK, k.mark_bar, Cell::Mark(-1));
                set_checked(data, n, FX_PRICE, k.mark_bar, Cell::Price(k.feat));
            },
            _ => {},
        }
        i += 1;
    }
}

fn write_strokes(data: &mut Vec<Vec<Cell>>, n: usize, ks: &Vec<ChanK>, eps: &Vec<Fx>)
    requires
        dims_ok(grid_of(old(data)@), n as int),
        forall|t: int| 0 <= t < eps@.len() ==> #[trigger] eps@[t].k < ks@.len(),
        forall|t: int| 0 <= t < ks@.len() ==> #[trigger] ks@[t].mark_bar < n,
    ensures
        dims_ok(grid_of(final(data)@), n as int),
        grid_of(final(data)@) == bi_phase(
            grid_of(old(data)@),
            ks@,
            eps@,
            if eps@.len() > 0 { eps@.len() - 1 } else { 0 },
        ),
{
    let ghost g0 = grid_of(data@);
    if eps.len() > 0 {
        let mut j: usize = 0;
        while j < eps.len() - 1
            invariant
                eps@.len() > 0,
                j <= eps@.len() - 1,
                forall|t: int| 0 <= t < eps@.len() ==> #[trigger] eps@[t].k < ks@.len(),
                forall|t: int| 0 <= t < ks@.len() ==> #[trigger] ks@[t].mark_bar < n,
                dims_ok(grid_of(data@), n as int),
                grid_of(data@) == bi_phase(g0, ks@, eps@, j as int),
            decreases eps@.len() - 1 - j,
        {
            let b = eps[j + 1];
            proof {
                assert(eps@[j + 1].k < ks@.len());
                assert(ks@[b.k as int].mark_bar < n);
            }
            let bar = ks[b.k].mark_bar;
            set_checked(data, n, BI_MARK, bar, Cell::Mark(if b.top { 1 } else { -1 }));
            set_checked(data, n, BI_PRICE, bar, Cell::Price(b.feat));
            j += 1;
        }
    }
}

fn write_pivots(data: &mut Vec<Vec<Cell>>, n: usize, lines: &Vec<Line>, pivots: &Vec<Pivot>)
    requires
        dims_ok(grid_of(old(data)@), n as int),
        pivots_ok(lines@, pivots@),
        lines_below(lines@, n as int),
    ensures
        dims_ok(grid_of(final(data)@), n as int),
        grid_of(final(data)@) == zs_phase(grid_of(old(data)@), lines@, pivots@, pivots@.len() as int),
{
    let ghost g0 = grid_of(data@);
    let mut k: usize = 0;
    while k < pivots.len()
        invariant
            k <= pivots@.len(),
            pivots_ok(lines@, pivots@),
            lines_below(lines@, n as int),
            dims_ok(grid_of(data@), n as int),
            grid_of(data@) == zs_phase(g0, lines@, pivots@, k as int),
        decreases pivots@.len() - k,
    {
        let p = pivots[k];
        proof {
            assert(pivot_ok(lines@, pivots@[k as int]));
            assert(lines@[p.start_li as int].wen < n && lines@[p.end_li as int].wu < n);
        }
        let s = lines[p.start_li].wen;
        let e = lines[p.end_li].wu;
        fill_zone(data, n, BI_ZS_ZG, BI_ZS_ZD, p.zg, p.zd, s, e);
        set_checked(data, n, BI_ZS_START, s, Cell::Mark(1));
        k += 1;
    }
}

fn write_segments(data: &mut Vec<Vec<Cell>>, n: usize, segs: &Vec<Segment>)
    requires
        dims_ok(grid_of(old(data)@), n as int),
        segs_below(segs@, n as int),
    ensures
        dims_ok(grid_of(final(data)@), n as int),
        grid_of(final(data)@) == xd_phase(grid_of(old(data)@), segs@, segs@.len() as int),
{
    let ghost g0 = grid_of(data@);
    let mut k: usize = 0;
    while k < segs.len()
        invariant
            k <= segs@.len(),
            segs_below(segs@, n as int),
            dims_ok(grid_of(data@), n as int),
            grid_of(data@) == xd_phase(g0, segs@, k as int),
        decreases segs@.len() - k,
    {
        let s = segs[k];
        proof {
            assert(segs@[k as int].wen < n && segs@[k as int].wu < n);
        }
        set_checked(data, n, XD_MARK, s.wen, Cell::Mark(if s.dir_up { -1 } else { 1 }));
        set_checked(data, n, XD_PRICE, s.wen, Cell::Price(s.wen_feat));
        set_checked(data, n, XD_MARK, s.wu, Cell::Mark(if s.dir_up { 1 } else { -1 }));
        set_checked(data, n, XD_PRICE, s.wu, Cell::Price(s.wu_feat));
        k += 1;
    }
}

/// Segments as lines (the input of segment pivots).
fn segment_lines(segs: &Vec<Segment>, n: usize) -> (out: Vec<Line>)
    requires
        segs_below(segs@, n as int),
    ensures
        out@ == seg_lines(segs@),
        lines_below(out@, n as int),
{
    let mut out: Vec<Line> = Vec::new();
    let mut k: usize = 0;
    while k < segs.len()
        invariant
            k <= segs@.len(),
            out@ == seg_lines(segs@.take(k as int)),
        decreases segs@.len() - k,
    {
        let s = segs[k];
        out.push(
            Line {
                wen: s.wen,
                wu: s.wu,
                dir_up: s.dir_up,
                high: if s.wen_feat >= s.wu_feat {
                    s.wen_feat
                } else {
                    s.wu_feat
                },
                low: if s.wen_feat <= s.wu_feat {
                    s.wen_feat
                } else {
                    s.wu_feat
                },
                wen_feat: s.wen_feat,
                wu_feat: s.wu_feat,
            },
        );
        proof {
            assert(segs@.take(k + 1) == segs@.take(k as int).push(s));
            assert(out@ =~= seg_lines(segs@.take(k + 1)));
        }
        k += 1;
    }
    proof {
        assert(segs@.take(segs@.len() as int) == segs@);
        assert forall|j: int| 0 <= j < out@.len() implies out@[j].wen < n && out@[j].wu < n by {
            assert(segs@[j].wen < n && segs@[j].wu < n);
        }
    }
    out
}

fn write_segment_pivots(data: &mut Vec<Vec<Cell>>, n: usize, seg_ls: &Vec<Line>, xd_pivots: &Vec<Pivot>)
    requires
        dims_ok(grid_of(old(data)@), n as int),
        pivots_ok(seg_ls@, xd_pivots@),
        lines_below(seg_ls@, n as int),
    ensures
        dims_ok(grid_of(final(data)@), n as int),
        grid_of(final(data)@) == xd_zs_phase(
            grid_of(old(data)@),
            seg_ls@,
            xd_pivots@,
            xd_pivots@.len() as int,
        ),
{
    let ghost g0 = grid_of(data@);
    let mut k: usize = 0;
    while k < xd_pivots.len()
        invariant
            k <= xd_pivots@.len(),
            pivots_ok(seg_ls@, xd_pivots@),
            lines_below(seg_ls@, n as int),
            dims_ok(grid_of(data@), n as int),
            grid_of(data@) == xd_zs_phase(g0, seg_ls@, xd_pivots@, k as int),
        decreases xd_pivots@.len() - k,
    {
        let p = xd_pivots[k];
        proof {
            assert(pivot_ok(seg_ls@, xd_pivots@[k as int]));
            assert(seg_ls@[p.start_li as int].wen < n && seg_ls@[p.end_li as int].wu < n);
        }
        let s = seg_ls[p.start_li].wen;
        let e = seg_ls[p.end_li].wu;
        fill_zone(data, n, XD_ZS_ZG, XD_ZS_ZD, p.zg, p.zd, s, e);
        k += 1;
    }
}

fn write_mmds(data: &mut Vec<Vec<Cell>>, n: usize, mmds: &Vec<MmdMark>)
    requires
        dims_ok(grid_of(old(data)@), n as int),
        marks_below(mmds@, n as int),
    ensures
        dims_ok(grid_of(final(data)@), n as int),
        grid_of(final(data)@) == mmd_phase(grid_of(old(data)@), mmds@, mmds@.len() as int),
{
    let ghost g0 = grid_of(data@);
    let mut k: usize = 0;
    while k < mmds.len()
        invariant
            k <= mmds@.len(),
            marks_below(mmds@, n as int),
            dims_ok(grid_of(data@), n as int),
            grid_of(data@) == mmd_phase(g0, mmds@, k as int),
        decreases mmds@.len() - k,
    {
        let mm = mmds[k];
        proof {
            assert(mmds@[k as int].bar < n);
        }
        let mk = match mm.kind {
            Mmd::Buy1 => BUY1,
            Mmd::Sell1 => SELL1,
            Mmd::Buy2 => BUY2,
            Mmd::Sell2 => SELL2,
            Mmd::Buy3 => BUY3,
            Mmd::Sell3 => SELL3,
            Mmd::PzBeichi => PZ_BEICHI,
        };
        set_checked(data, n, mk, mm.bar, Cell::Mark(1));
        k += 1;
    }
}

/// Runs the whole pipeline on `bars` with MACD histogram `hist` (hundredths,
/// one per bar) and writes every output row.
pub fn compute_all(bars: &[Bar], hist: &[i64]) -> (o: Outputs)
    requires
        hist@.len() == bars@.len(),
        hist@.len() <= max_hist(),
    ensures
        o.grid() == spec_compute_all(bars@, hist@),
        dims_ok(o.grid(), bars@.len() as int),
        forall|j: int|
            0 <= j < bars@.len() ==> #[trigger] o.grid()[RESV19 - 1][j] == Cell::Empty
                && o.grid()[RESV20 - 1][j] == Cell::Empty,
{
    proof {
        lemma_reserved_rows_empty(bars@, hist@);
    }
    let n = bars.len();
    let mut data = empty_table(n);
    proof {
        assert forall|r: int| 0 <= r < ROWS implies #[trigger] empty_grid(n as int)[r].len() == n by {}
    }
    let ks = merge_and_mark(bars);
    proof {
        assert forall|t: int| 0 <= t < ks@.len() implies #[trigger] ks@[t].mark_bar < n by {}
    }
    write_fractals(&mut data, n, &ks);
    let fxs = collect_fractals(&ks);
    proof {
        lemma_sorted_is_ordered(ks@, fxs@);
    }
    let eps = build_strokes(&ks, &fxs);
    proof {
        assert forall|j: int| 0 <= j < eps@.len() implies #[trigger] eps@[j].k < ks@.len() by {
            assert(fxs@.contains(eps@[j]));
            let t = choose|t: int| 0 <= t < fxs@.len() && fxs@[t] == eps@[j];
            assert(fxs@[t].k < ks@.len());
        }
    }
    write_strokes(&mut data, n, &ks, &eps);
    let lines = strokes_to_lines(&ks, &eps);
    proof {
        lemma_stroke_lines_below(ks@, eps@, n as int);
    }
    let pivots = build_pivots(&lines);
    write_pivots(&mut data, n, &lines, &pivots);
    let segs = build_segments(&lines);
    proof {
        assert(segs_below(segs@, n as int));
    }
    write_segments(&mut data, n, &segs);
    let seg_ls = segment_lines(&segs, n);
    let xd_pivots = build_pivots(&seg_ls);
    write_segment_pivots(&mut data, n, &seg_ls, &xd_pivots);
    proof {
        assert(pivot_refs_ok(lines@, pivots@)) by {
            assert forall|k: int| 0 <= k < pivots@.len() implies #[trigger] pivots@[k].start_li
                < lines@.len() && pivots@[k].end_li < lines@.len() && (pivots@[k].tbs matches Some(
                t,
            ) ==> t < lines@.len()) by {
                assert(pivot_ok(lines@, pivots@[k]));
            }
        }
        assert(lines_in_hist(lines@, hist@)) by {
            assert forall|j: int| 0 <= j < lines@.len() implies lines@[j].wen < hist@.len()
                && lines@[j].wu < hist@.len() by {
                assert(lines@[j].wen < n && lines@[j].wu < n);
            }
        }
    }
    let mmds = detect_mmds(&lines, &pivots, hist);
    proof {
        assert(marks_below(mmds@, n as int));
    }
    write_mmds(&mut data, n, &mmds);
    Outputs { data }
}

} // verus!
