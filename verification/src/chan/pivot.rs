//! Pivots (zones where three or more consecutive lines overlap).

use vstd::prelude::*;
use super::relation::{rel, lemma_rel_classes, Rel};
use super::kline::{max_i64, min_i64};
use super::stroke::{Line, lines_connected};

verus! {

/// A pivot over lines `start_li..=end_li`.
#[derive(Clone, Copy, Debug)]
pub struct Pivot {
    /// upper edge: lowest high of the first three lines
    pub zg: i64,
    /// lower edge: highest low of the first three lines
    pub zd: i64,
    pub start_li: usize,
    pub end_li: usize,
    /// the third buy/sell line: the line right after the pivot when it
    /// already leaves the pivot range with a gap
    pub tbs: Option<usize>,
}

pub open spec fn zg_of(lines: Seq<Line>, a: int) -> i64 {
    min_i64(min_i64(lines[a].high, lines[a + 1].high), lines[a + 2].high)
}

pub open spec fn zd_of(lines: Seq<Line>, a: int) -> i64 {
    max_i64(max_i64(lines[a].low, lines[a + 1].low), lines[a + 2].low)
}

fn pivot_zg_zd(lines: &[Line], a: usize) -> (r: (i64, i64))
    requires
        a + 2 < lines@.len(),
    ensures
        r.0 == zg_of(lines@, a as int),
        r.1 == zd_of(lines@, a as int),
{
    let h0 = lines[a].high;
    let h1 = lines[a + 1].high;
    let h2 = lines[a + 2].high;
    let l0 = lines[a].low;
    let l1 = lines[a + 1].low;
    let l2 = lines[a + 2].low;
    let m = if h0 <= h1 { h0 } else { h1 };
    let zg = if m <= h2 { m } else { h2 };
    let n = if l0 >= l1 { l0 } else { l1 };
    let zd = if n >= l2 { n } else { l2 };
    (zg, zd)
}

/// The first and third of lines `a..a+3` overlap (upward, downward or in
/// containment; no gap and no mere touch).
pub open spec fn base_ok(lines: Seq<Line>, a: int) -> bool {
    let r = rel(lines[a].high, lines[a].low, lines[a + 2].high, lines[a + 2].low);
    r is Up || r is Down || r is Shun || r is Ni || r is Same
}

fn pivot_base_ok(lines: &[Line], a: usize) -> (ok: bool)
    requires
        a + 2 < lines@.len(),
    ensures
        ok == base_ok(lines@, a as int),
{
    match rel(lines[a].high, lines[a].low, lines[a + 2].high, lines[a + 2].low) {
        Rel::Up | Rel::Down | Rel::Shun | Rel::Ni | Rel::Same => true,
        _ => false,
    }
}

/// Line `a` continues the direction in which it was entered (it moves the
/// way its predecessor relation already goes).
pub open spec fn entry_same_dir(lines: Seq<Line>, a: int) -> bool {
    let r = rel(lines[a - 1].high, lines[a - 1].low, lines[a].high, lines[a].low);
    (r.is_up() && lines[a].dir_up) || (r.is_down() && !lines[a].dir_up)
}

/// First start `a >= from` (never the very first line) of an initial pivot.
pub open spec fn first_pivot_from(lines: Seq<Line>, a: int) -> Option<int>
    decreases lines.len() - a,
{
    if a < 1 || a + 2 >= lines.len() {
        None
    } else if base_ok(lines, a) && !entry_same_dir(lines, a) {
        Some(a)
    } else {
        first_pivot_from(lines, a + 1)
    }
}

/// State of the pivot scan.
pub struct PivotScan {
    /// pivots already closed
    pub pivots: Seq<Pivot>,
    pub start: usize,
    pub end: usize,
    pub zg: i64,
    pub zd: i64,
    pub tbs: Option<usize>,
    /// lines seen since the current pivot was left
    pub buf: Seq<usize>,
}

pub open spec fn cur_pivot(s: PivotScan) -> Pivot {
    Pivot { zg: s.zg, zd: s.zd, start_li: s.start, end_li: s.end, tbs: s.tbs }
}

pub open spec fn scan_init(lines: Seq<Line>, a: int) -> PivotScan {
    PivotScan {
        pivots: Seq::empty(),
        start: a as usize,
        end: (a + 2) as usize,
        zg: zg_of(lines, a),
        zd: zd_of(lines, a),
        tbs: None,
        buf: Seq::empty(),
    }
}

/// First `buf[t - 1]` (`1 <= t <= buf.len() - 2`) that starts a valid pivot
/// moving in direction `want_up`.
pub open spec fn find_new_start(lines: Seq<Line>, buf: Seq<usize>, want_up: bool, t: int) -> Option<
    int,
>
    decreases buf.len() - t,
{
    if t < 1 || t + 1 >= buf.len() {
        None
    } else {
        let a = buf[t - 1] as int;
        if base_ok(lines, a) && lines[a].dir_up == want_up {
            Some(a)
        } else {
            find_new_start(lines, buf, want_up, t + 1)
        }
    }
}

/// While at least three lines are buffered, either a new pivot starts in
/// the buffer (closing the current one) or the oldest buffered line is dropped.
pub open spec fn settle(lines: Seq<Line>, s: PivotScan) -> PivotScan
    decreases s.buf.len(),
{
    if s.buf.len() < 3 {
        s
    } else {
        let want_up = !lines[s.end as int].dir_up;
        match find_new_start(lines, s.buf, want_up, 1) {
            Some(a) => PivotScan {
                pivots: s.pivots.push(cur_pivot(s)),
                start: a as usize,
                end: (a + 2) as usize,
                zg: zg_of(lines, a),
                zd: zd_of(lines, a),
                tbs: None,
                buf: Seq::empty(),
            },
            None => settle(lines, PivotScan { buf: s.buf.drop_first(), ..s }),
        }
    }
}

/// Line `j` either extends the current pivot (overlaps its range while
/// nothing is buffered) or is buffered; the first line right after the
/// pivot that leaves it with a gap is its third buy/sell line.
pub open spec fn pivot_step(lines: Seq<Line>, s: PivotScan, j: int) -> PivotScan {
    let l = lines[j];
    let r = rel(s.zg, s.zd, l.high, l.low);
    let s1 = if r.is_gap() {
        PivotScan {
            tbs: if s.tbs is None && s.buf.len() == 0 && j == s.end + 1 {
                Some(j as usize)
            } else {
                s.tbs
            },
            buf: s.buf.push(j as usize),
            ..s
        }
    } else if s.buf.len() == 0 {
        PivotScan { end: j as usize, ..s }
    } else {
        PivotScan { buf: s.buf.push(j as usize), ..s }
    };
    settle(lines, s1)
}

pub open spec fn pivot_run(lines: Seq<Line>, s: PivotScan, j: int) -> PivotScan
    decreases lines.len() - j,
{
    if j < 0 || j >= lines.len() {
        s
    } else {
        pivot_run(lines, pivot_step(lines, s, j), j + 1)
    }
}

/// The result of `build_pivots`.
pub open spec fn spec_build_pivots(lines: Seq<Line>) -> Seq<Pivot> {
    if lines.len() < 3 {
        Seq::empty()
    } else {
        match first_pivot_from(lines, 1) {
            None => Seq::empty(),
            Some(a) => {
                let s = pivot_run(lines, scan_init(lines, a), a + 3);
                s.pivots.push(cur_pivot(s))
            },
        }
    }
}

/// A well-formed pivot: at least three lines, edges from its first three
/// lines, which overlap; its last line overlaps its range; its third
/// buy/sell line, if any, is the line right after it and leaves with a gap.
pub open spec fn pivot_ok(lines: Seq<Line>, p: Pivot) -> bool {
    &&& p.start_li + 2 <= p.end_li < lines.len()
    &&& p.zg == zg_of(lines, p.start_li as int)
    &&& p.zd == zd_of(lines, p.start_li as int)
    &&& base_ok(lines, p.start_li as int)
    &&& (p.end_li == p.start_li + 2 || !rel(
        p.zg,
        p.zd,
        lines[p.end_li as int].high,
        lines[p.end_li as int].low,
    ).is_gap())
    &&& (p.tbs matches Some(t) ==> t == p.end_li + 1 && t < lines.len() && rel(
        p.zg,
        p.zd,
        lines[t as int].high,
        lines[t as int].low,
    ).is_gap())
}

/// Well-formed pivots in time order, none overlapping the next.
pub open spec fn pivots_ok(lines: Seq<Line>, ps: Seq<Pivot>) -> bool {
    &&& forall|k: int| 0 <= k < ps.len() ==> pivot_ok(lines, #[trigger] ps[k])
    &&& forall|k: int| 0 <= k < ps.len() - 1 ==> #[trigger] ps[k].end_li < ps[k + 1].start_li
}

pub open spec fn buf_ok(lines: Seq<Line>, s: PivotScan, j: int) -> bool {
    &&& forall|a: int, b: int| 0 <= a < b < s.buf.len() ==> #[trigger] s.buf[a] < #[trigger] s.buf[b]
    &&& forall|a: int| 0 <= a < s.buf.len() ==> s.end < #[trigger] s.buf[a] < j
}

/// Invariant of the pivot scan before line `j`.
pub open spec fn scan_ok(lines: Seq<Line>, s: PivotScan, j: int) -> bool {
    &&& lines.len() <= usize::MAX
    &&& j <= lines.len()
    &&& pivot_ok(lines, cur_pivot(s))
    &&& s.end < j
    &&& (s.tbs is Some ==> s.buf.len() > 0)
    &&& buf_ok(lines, s, j)
    &&& pivots_ok(lines, s.pivots)
    &&& (s.pivots.len() > 0 ==> s.pivots.last().end_li < s.start)
}

proof fn lemma_find_new_start(lines: Seq<Line>, s: PivotScan, j: int, want_up: bool, t: int)
    requires
        buf_ok(lines, s, j),
        j <= lines.len(),
        t >= 1,
    ensures
        find_new_start(lines, s.buf, want_up, t) matches Some(a) ==> {
            &&& a + 2 < lines.len()
            &&& a + 2 < j
            &&& s.end < a
            &&& base_ok(lines, a)
        },
    decreases s.buf.len() - t,
{
    if t + 1 < s.buf.len() {
        let a = s.buf[t - 1] as int;
        assert(s.buf[t - 1] < s.buf[t] < s.buf[t + 1]);
        if !(base_ok(lines, a) && lines[a].dir_up == want_up) {
            lemma_find_new_start(lines, s, j, want_up, t + 1);
        }
    }
}

proof fn lemma_settle_ok(lines: Seq<Line>, s: PivotScan, j: int)
    requires
        scan_ok(lines, s, j),
    ensures
        scan_ok(lines, settle(lines, s), j),
    decreases s.buf.len(),
{
    if s.buf.len() >= 3 {
        let want_up = !lines[s.end as int].dir_up;
        lemma_find_new_start(lines, s, j, want_up, 1);
        match find_new_start(lines, s.buf, want_up, 1) {
            Some(a) => {
                let r = settle(lines, s);
                let ps = s.pivots.push(cur_pivot(s));
                assert(r.pivots == ps);
                assert forall|k: int| 0 <= k < ps.len() - 1 implies #[trigger] ps[k].end_li
                    < ps[k + 1].start_li by {
                    if k < s.pivots.len() - 1 {
                        assert(ps[k] == s.pivots[k] && ps[k + 1] == s.pivots[k + 1]);
                    }
                }
                assert forall|k: int| 0 <= k < ps.len() implies pivot_ok(lines, #[trigger] ps[k]) by {
                    if k < s.pivots.len() {
                        assert(ps[k] == s.pivots[k]);
                    }
                }
                lemma_rel_classes(r.zg, r.zd, lines[r.end as int].high, lines[r.end as int].low);
            },
            None => {
                let s2 = PivotScan { buf: s.buf.drop_first(), ..s };
                assert(buf_ok(lines, s2, j)) by {
                    assert forall|a: int, b: int| 0 <= a < b < s2.buf.len() implies #[trigger] s2.buf[a]
                        < #[trigger] s2.buf[b] by {
                        assert(s2.buf[a] == s.buf[a + 1] && s2.buf[b] == s.buf[b + 1]);
                    }
                    assert forall|a: int| 0 <= a < s2.buf.len() implies s2.end < #[trigger] s2.buf[a]
                        < j by {
                        assert(s2.buf[a] == s.buf[a + 1]);
                    }
                }
                lemma_settle_ok(lines, s2, j);
            },
        }
    }
}

proof fn lemma_buf_drop_ok(lines: Seq<Line>, s: PivotScan, j: int)
    requires
        scan_ok(lines, s, j),
        s.buf.len() >= 3,
    ensures
        scan_ok(lines, PivotScan { buf: s.buf.drop_first(), ..s }, j),
{
    let s2 = PivotScan { buf: s.buf.drop_first(), ..s };
    assert(buf_ok(lines, s2, j)) by {
        assert forall|a: int, b: int| 0 <= a < b < s2.buf.len() implies #[trigger] s2.buf[a]
            < #[trigger] s2.buf[b] by {
            assert(s2.buf[a] == s.buf[a + 1] && s2.buf[b] == s.buf[b + 1]);
        }
        assert forall|a: int| 0 <= a < s2.buf.len() implies s2.end < #[trigger] s2.buf[a] < j by {
            assert(s2.buf[a] == s.buf[a + 1]);
        }
    }
}

proof fn lemma_pivot_step_ok(lines: Seq<Line>, s: PivotScan, j: int)
    requires
        scan_ok(lines, s, j),
        0 <= j < lines.len(),
    ensures
        scan_ok(lines, pivot_step(lines, s, j), j + 1),
{
    let l = lines[j];
    let r = rel(s.zg, s.zd, l.high, l.low);
    let s1 = if r.is_gap() {
        PivotScan {
            tbs: if s.tbs is None && s.buf.len() == 0 && j == s.end + 1 {
                Some(j as usize)
            } else {
                s.tbs
            },
            buf: s.buf.push(j as usize),
            ..s
        }
    } else if s.buf.len() == 0 {
        PivotScan { end: j as usize, ..s }
    } else {
        PivotScan { buf: s.buf.push(j as usize), ..s }
    };
    assert(buf_ok(lines, s1, j + 1)) by {
        assert forall|a: int, b: int| 0 <= a < b < s1.buf.len() implies #[trigger] s1.buf[a]
            < #[trigger] s1.buf[b] by {
            if b < s.buf.len() {
                assert(s1.buf[a] == s.buf[a] && s1.buf[b] == s.buf[b]);
            } else {
                assert(s1.buf[a] == s.buf[a]);
            }
        }
        assert forall|a: int| 0 <= a < s1.buf.len() implies s1.end < #[trigger] s1.buf[a] < j + 1 by {
            if a < s.buf.len() {
                assert(s1.buf[a] == s.buf[a]);
            }
        }
    }
    assert(scan_ok(lines, s1, j + 1));
    lemma_settle_ok(lines, s1, j + 1);
}

proof fn lemma_pivot_run_ok(lines: Seq<Line>, s: PivotScan, j: int)
    requires
        scan_ok(lines, s, j),
        j >= 0,
    ensures
        scan_ok(lines, pivot_run(lines, s, j), if j <= lines.len() { lines.len() as int } else { j }),
    decreases lines.len() - j,
{
    if j < lines.len() {
        lemma_pivot_step_ok(lines, s, j);
        lemma_pivot_run_ok(lines, pivot_step(lines, s, j), j + 1);
    }
}

proof fn lemma_first_pivot(lines: Seq<Line>, a: int)
    requires
        a >= 1,
    ensures
        first_pivot_from(lines, a) matches Some(b) ==> 1 <= b && b + 2 < lines.len() && base_ok(
            lines,
            b,
        ),
    decreases lines.len() - a,
{
    if a + 2 < lines.len() && !(base_ok(lines, a) && !entry_same_dir(lines, a)) {
        lemma_first_pivot(lines, a + 1);
    }
}

/// The pivots found are well formed and in order.
pub proof fn lemma_pivots_ok(lines: Seq<Line>)
    requires
        lines.len() <= usize::MAX,
    ensures
        pivots_ok(lines, spec_build_pivots(lines)),
{
    if lines.len() >= 3 {
        lemma_first_pivot(lines, 1);
        match first_pivot_from(lines, 1) {
            None => {},
            Some(a) => {
                let s0 = scan_init(lines, a);
                lemma_rel_classes(s0.zg, s0.zd, lines[a + 2].high, lines[a + 2].low);
                assert(scan_ok(lines, s0, a + 3));
                lemma_pivot_run_ok(lines, s0, a + 3);
                let s = pivot_run(lines, s0, a + 3);
                let ps = s.pivots.push(cur_pivot(s));
                assert forall|k: int| 0 <= k < ps.len() - 1 implies #[trigger] ps[k].end_li
                    < ps[k + 1].start_li by {
                    if k < s.pivots.len() - 1 {
                        assert(ps[k] == s.pivots[k] && ps[k + 1] == s.pivots[k + 1]);
                    }
                }
                assert forall|k: int| 0 <= k < ps.len() implies pivot_ok(lines, #[trigger] ps[k]) by {
                    if k < s.pivots.len() {
                        assert(ps[k] == s.pivots[k]);
                    }
                }
            },
        }
    }
}

/// On connected lines, every pivot's upper edge is at least its lower edge.
pub proof fn lemma_pivot_range(lines: Seq<Line>, p: Pivot)
    requires
        lines_connected(lines),
        pivot_ok(lines, p),
    ensures
        p.zg >= p.zd,
{
    let a = p.start_li as int;
    assert(lines[a].wu_feat == lines[a + 1].wen_feat);
    assert(lines[a + 1].wu_feat == lines[a + 2].wen_feat);
    assert(lines[a].high == max_i64(lines[a].wen_feat, lines[a].wu_feat));
    assert(lines[a + 1].high == max_i64(lines[a + 1].wen_feat, lines[a + 1].wu_feat));
    assert(lines[a + 2].high == max_i64(lines[a + 2].wen_feat, lines[a + 2].wu_feat));
    lemma_rel_classes(lines[a].high, lines[a].low, lines[a + 2].high, lines[a + 2].low);
}

/// Pivots of a line sequence: the first three overlapping lines (not at
/// the very start and not continuing their entry direction) open a pivot
/// with edges `zg = min(highs)` and `zd = max(lows)`; later lines extend
/// it while they overlap `[zd, zg]`; once lines leave it, a new pivot opens
/// at the first buffered triple that overlaps and moves against the last
/// pivot line.
pub fn build_pivots(lines: &[Line]) -> (pivots: Vec<Pivot>)
    ensures
        pivots@ == spec_build_pivots(lines@),
        pivots_ok(lines@, pivots@),
        lines_connected(lines@) ==> forall|k: int|
            0 <= k < pivots@.len() ==> #[trigger] pivots@[k].zg >= pivots@[k].zd,
{
    let n = lines.len();
    proof {
        lemma_pivots_ok(lines@);
    }
    if n < 3 {
        return Vec::new();
    }
    let mut first: Option<usize> = None;
    let mut a: usize = 1;
    while a + 2 < n && first.is_none()
        invariant
            n == lines@.len(),
            n >= 3,
            1 <= a,
            a + 2 <= n,
            first is None ==> first_pivot_from(lines@, 1) == first_pivot_from(lines@, a as int),
            first matches Some(x) ==> first_pivot_from(lines@, 1) == Some(x as int),
        decreases n - a, if first is None { 1int } else { 0int },
    {
        let mut ok = false;
        if pivot_base_ok(lines, a) {
            let r = rel(lines[a - 1].high, lines[a - 1].low, lines[a].high, lines[a].low);
            let same = (r.is_up() && lines[a].dir_up) || (r.is_down() && !lines[a].dir_up);
            ok = !same;
        }
        if ok {
            first = Some(a);
        } else {
            a += 1;
        }
    }
    let start = match first {
        Some(x) => x,
        None => {
            proof {
                assert(first_pivot_from(lines@, a as int) == None::<int>);
            }
            return Vec::new();
        },
    };
    proof {
        lemma_first_pivot(lines@, 1);
    }
    let (zg0, zd0) = pivot_zg_zd(lines, start);
    let mut cur_start = start;
    let mut cur_end = start + 2;
    let mut cur_zg = zg0;
    let mut cur_zd = zd0;
    let mut pivots: Vec<Pivot> = Vec::new();
    let mut buf: Vec<usize> = Vec::new();
    let mut tbs: Option<usize> = None;
    let mut j = cur_end + 1;
    let ghost s0 = scan_init(lines@, start as int);
    let ghost fin = pivot_run(lines@, s0, start + 3);
    proof {
        lemma_rel_classes(zg0, zd0, lines@[start + 2].high, lines@[start + 2].low);
        assert(scan_ok(lines@, s0, start + 3));
    }
    while j < n
        invariant
            n == lines@.len(),
            j <= n,
            scan_ok(
                lines@,
                PivotScan {
                    pivots: pivots@,
                    start: cur_start,
                    end: cur_end,
                    zg: cur_zg,
                    zd: cur_zd,
                    tbs,
                    buf: buf@,
                },
                j as int,
            ),
            pivot_run(
                lines@,
                PivotScan {
                    pivots: pivots@,
                    start: cur_start,
                    end: cur_end,
                    zg: cur_zg,
                    zd: cur_zd,
                    tbs,
                    buf: buf@,
                },
                j as int,
            ) == fin,
        decreases n - j,
    {
        let ghost before = PivotScan {
            pivots: pivots@,
            start: cur_start,
            end: cur_end,
            zg: cur_zg,
            zd: cur_zd,
            tbs,
            buf: buf@,
        };
        proof {
            lemma_pivot_step_ok(lines@, before, j as int);
        }
        let l = lines[j];
        let r = rel(cur_zg, cur_zd, l.high, l.low);
        if r.is_gap() {
            if tbs.is_none() && buf.len() == 0 && j == cur_end + 1 {
                tbs = Some(j);
            }
            buf.push(j);
        } else if buf.len() == 0 {
            cur_end = j;
        } else {
            buf.push(j);
        }
        let ghost mid = PivotScan {
            pivots: pivots@,
            start: cur_start,
            end: cur_end,
            zg: cur_zg,
            zd: cur_zd,
            tbs,
            buf: buf@,
        };
        proof {
            assert(settle(lines@, mid) == pivot_step(lines@, before, j as int));
            assert(scan_ok(lines@, mid, j + 1)) by {
                assert(buf_ok(lines@, mid, j + 1)) by {
                    assert forall|x: int, y: int| 0 <= x < y < mid.buf.len() implies #[trigger] mid.buf[x]
                        < #[trigger] mid.buf[y] by {
                        if y < before.buf.len() {
                            assert(mid.buf[x] == before.buf[x] && mid.buf[y] == before.buf[y]);
                        } else {
                            assert(mid.buf[x] == before.buf[x]);
                        }
                    }
                    assert forall|x: int| 0 <= x < mid.buf.len() implies mid.end < #[trigger] mid.buf[x]
                        < j + 1 by {
                        if x < before.buf.len() {
                            assert(mid.buf[x] == before.buf[x]);
                        }
                    }
                }
            }
        }
        while buf.len() >= 3
            invariant
                n == lines@.len(),
                j < n,
                scan_ok(
                    lines@,
                    PivotScan {
                        pivots: pivots@,
                        start: cur_start,
                        end: cur_end,
                        zg: cur_zg,
                        zd: cur_zd,
                        tbs,
                        buf: buf@,
                    },
                    j + 1,
                ),
                settle(
                    lines@,
                    PivotScan {
                        pivots: pivots@,
                        start: cur_start,
                        end: cur_end,
                        zg: cur_zg,
                        zd: cur_zd,
                        tbs,
                        buf: buf@,
                    },
                ) == pivot_step(lines@, before, j as int),
            decreases buf@.len(),
        {
            let ghost cur = PivotScan {
                pivots: pivots@,
                start: cur_start,
                end: cur_end,
                zg: cur_zg,
                zd: cur_zd,
                tbs,
                buf: buf@,
            };
            proof {
                lemma_settle_ok(lines@, cur, j + 1);
            }
            let want_up = !lines[cur_end].dir_up;
            let mut found: Option<usize> = None;
            let mut t: usize = 1;
            while t < buf.len() - 1 && found.is_none()
                invariant
                    buf@.len() >= 3,
                    1 <= t <= buf@.len() - 1,
                    found matches Some(x) ==> find_new_start(lines@, buf@, want_up, 1) == Some(
                        x as int,
                    ),
                    buf_ok(lines@, cur, j + 1),
                    cur.buf == buf@,
                    j < n,
                    n == lines@.len(),
                    found is None ==> find_new_start(lines@, buf@, want_up, 1) == find_new_start(
                        lines@,
                        buf@,
                        want_up,
                        t as int,
                    ),
                decreases buf@.len() - t, if found is None { 1int } else { 0int },
            {
                let a = buf[t - 1];
                proof {
                    assert(buf@[t - 1] < buf@[t as int] < buf@[t + 1]);
                }
                if pivot_base_ok(lines, a) && lines[a].dir_up == want_up {
                    found = Some(a);
                } else {
                    t += 1;
                }
            }
            proof {
                lemma_find_new_start(lines@, cur, j + 1, want_up, 1);
            }
            match found {
                Some(a) => {
                    pivots.push(
                        Pivot { zg: cur_zg, zd: cur_zd, start_li: cur_start, end_li: cur_end, tbs },
                    );
                    let (zg, zd) = pivot_zg_zd(lines, a);
                    cur_start = a;
                    cur_end = a + 2;
                    cur_zg = zg;
                    cur_zd = zd;
                    tbs = None;
                    buf.clear();
                },
                None => {
                    proof {
                        assert(t == buf@.len() - 1);
                        assert(find_new_start(lines@, buf@, want_up, t as int) == None::<int>);
                    }
                    buf.remove(0);
                    proof {
                        assert(buf@ =~= cur.buf.drop_first());
                        lemma_buf_drop_ok(lines@, cur, j + 1);
                    }
                },
            }
        }
        j += 1;
    }
    pivots.push(Pivot { zg: cur_zg, zd: cur_zd, start_li: cur_start, end_li: cur_end, tbs });
    proof {
        if lines_connected(lines@) {
            assert forall|k: int| 0 <= k < pivots@.len() implies #[trigger] pivots@[k].zg
                >= pivots@[k].zd by {
                lemma_pivot_range(lines@, pivots@[k]);
            }
        }
    }
    pivots
}

} // verus!
