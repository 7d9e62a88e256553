//! MACD areas and buy/sell points.
//!
//! MACD histogram values come in hundredths (the histogram is rounded to
//! two decimals when computed), so areas are exact integer sums.

use vstd::prelude::*;
use super::relation::rel;
use super::stroke::{Line, lines_below};
use super::pivot::Pivot;

verus! {

/// Most histogram entries a slice can hold (a slice spans at most
/// `isize::MAX` bytes, an entry takes eight).
pub open spec fn max_hist() -> int {
    0x1000_0000_0000_0000
}

/// Sum of the non-negative histogram values over `[a, m]`.
pub open spec fn yang_sum(hist: Seq<i64>, a: int, m: int) -> int
    decreases m - a + 1,
{
    if m < a {
        0
    } else {
        yang_sum(hist, a, m - 1) + if hist[m] >= 0 {
            hist[m] as int
        } else {
            0
        }
    }
}

/// Sum of the negative histogram values over `[a, m]`.
pub open spec fn yin_sum(hist: Seq<i64>, a: int, m: int) -> int
    decreases m - a + 1,
{
    if m < a {
        0
    } else {
        yin_sum(hist, a, m - 1) + if hist[m] >= 0 {
            0
        } else {
            hist[m] as int
        }
    }
}

/// MACD area over `[a, b]`: positive plus absolute negative parts
/// (`mode_total`), otherwise the positive part (`up_dir`) or the negative part.
pub open spec fn spec_macd_area(hist: Seq<i64>, a: int, b: int, up_dir: bool, mode_total: bool) -> int {
    let y = yang_sum(hist, a, b);
    let n = yin_sum(hist, a, b);
    if mode_total {
        y - n
    } else if up_dir {
        y
    } else {
        n
    }
}

proof fn lemma_sums_bounded(hist: Seq<i64>, a: int, m: int)
    requires
        0 <= a,
    ensures
        0 <= yang_sum(hist, a, m) <= (if m < a { 0 } else { m - a + 1 }) * 0x8000_0000_0000_0000,
        -((if m < a { 0 } else { m - a + 1 }) * 0x8000_0000_0000_0000) <= yin_sum(hist, a, m) <= 0,
    decreases m - a + 1,
{
    if m >= a {
        lemma_sums_bounded(hist, a, m - 1);
    }
}

/// MACD area of histogram values (in hundredths) over bars `[a, b]`.
pub fn macd_area(hist: &[i64], a: usize, b: usize, up_dir: bool, mode_total: bool) -> (r: i128)
    requires
        a > b || b < hist@.len(),
        hist@.len() <= max_hist(),
    ensures
        r == spec_macd_area(hist@, a as int, b as int, up_dir, mode_total),
{
    let mut yang: i128 = 0;
    let mut yin: i128 = 0;
    if a <= b {
        let mut i = a;
        while i <= b
            invariant
                a <= i <= b + 1,
                b < hist@.len() <= max_hist(),
                yang == yang_sum(hist@, a as int, i - 1),
                yin == yin_sum(hist@, a as int, i - 1),
            decreases b + 1 - i,
        {
            proof {
                lemma_sums_bounded(hist@, a as int, i as int);
            }
            let h = hist[i];
            if h >= 0 {
                yang = yang + h as i128;
            } else {
                yin = yin + h as i128;
            }
            i += 1;
        }
        proof {
            lemma_sums_bounded(hist@, a as int, b as int);
        }
    }
    if mode_total {
        yang - yin
    } else if up_dir {
        yang
    } else {
        yin
    }
}

/// Kinds of buy/sell points.
#[derive(Clone, Copy, PartialEq, Eq, Debug, Structural)]
pub enum Mmd {
    Buy1,
    Sell1,
    Buy2,
    Sell2,
    Buy3,
    Sell3,
    PzBeichi,
}

/// A buy/sell point at a raw bar.
#[derive(Clone, Copy, PartialEq, Eq, Debug, Structural)]
pub struct MmdMark {
    pub bar: usize,
    pub kind: Mmd,
}

/// Entering line of a pivot: the line before it.
pub open spec fn spec_p_enter(p: Pivot) -> Option<int> {
    if p.start_li == 0 {
        None
    } else {
        Some(p.start_li - 1)
    }
}

/// Leaving line of a pivot: its third buy/sell line, else the line after it.
pub open spec fn spec_p_leave(lines: Seq<Line>, p: Pivot) -> Option<int> {
    if p.tbs is Some {
        Some(p.tbs.unwrap() as int)
    } else if p.end_li + 1 < lines.len() {
        Some(p.end_li + 1)
    } else {
        None
    }
}

fn p_enter(p: &Pivot) -> (r: Option<usize>)
    ensures
        (match r {
            Some(x) => Some(x as int),
            None => None::<int>,
        }) == spec_p_enter(*p),
{
    if p.start_li == 0 {
        None
    } else {
        Some(p.start_li - 1)
    }
}

fn p_leave(lines: &[Line], p: &Pivot) -> (r: Option<usize>)
    ensures
        (match r {
            Some(x) => Some(x as int),
            None => None::<int>,
        }) == spec_p_leave(lines@, *p),
{
    if let Some(t) = p.tbs {
        return Some(t);
    }
    if p.end_li < lines.len() && lines.len() - p.end_li > 1 {
        Some(p.end_li + 1)
    } else {
        None
    }
}

pub open spec fn abs_int(x: int) -> int {
    if x < 0 {
        -x
    } else {
        x
    }
}

/// Divergence: the entering area is non-zero and the leaving area is
/// strictly smaller in size.
pub open spec fn diverges(vl: int, ae: int) -> bool {
    ae != 0 && abs_int(vl) < abs_int(ae)
}

pub open spec fn area_of_line(hist: Seq<i64>, l: Line, dir_up: bool) -> int {
    spec_macd_area(hist, l.wen as int, l.wu as int, dir_up, false)
}

pub open spec fn mark(bar: usize, kind: Mmd) -> MmdMark {
    MmdMark { bar, kind }
}

pub open spec fn opt_mark(c: bool, bar: usize, kind: Mmd) -> Seq<MmdMark> {
    if c {
        seq![mark(bar, kind)]
    } else {
        Seq::empty()
    }
}

/// Third buy/sell: the line right after the pivot leaves it with a gap and
/// a pullback stays above the pivot (buy) or a rebound stays below it (sell).
pub open spec fn third_marks(lines: Seq<Line>, p: Pivot) -> Seq<MmdMark> {
    let j = p.end_li + 1;
    if j < lines.len() && rel(p.zg, p.zd, lines[j].high, lines[j].low).is_gap() {
        let l = lines[j];
        opt_mark(!l.dir_up && l.low > p.zg, l.wu, Mmd::Buy3) + opt_mark(
            l.dir_up && l.high < p.zd,
            l.wu,
            Mmd::Sell3,
        )
    } else {
        Seq::empty()
    }
}

pub open spec fn all_third(lines: Seq<Line>, ps: Seq<Pivot>, k: int) -> Seq<MmdMark>
    decreases k,
{
    if k <= 0 {
        Seq::empty()
    } else {
        all_third(lines, ps, k - 1) + third_marks(lines, ps[k - 1])
    }
}

/// First buy/sell: pivot `b` lies wholly below (above) pivot `a`, its
/// leaving line makes a new low (high) beyond its first line, and the
/// leaving MACD area diverges from the entering one.
pub open spec fn first_marks(lines: Seq<Line>, hist: Seq<i64>, a: Pivot, b: Pivot) -> Seq<MmdMark> {
    let down_trend = b.zg < a.zd;
    let up_trend = b.zd > a.zg;
    if !down_trend && !up_trend {
        Seq::empty()
    } else if spec_p_enter(b) is Some && spec_p_leave(lines, b) is Some {
        let e = spec_p_enter(b).unwrap();
        let v = spec_p_leave(lines, b).unwrap();
        let dir_up = lines[v].dir_up;
        let ae = area_of_line(hist, lines[e], dir_up);
        let vl = area_of_line(hist, lines[v], dir_up);
        let first = lines[b.start_li as int];
        opt_mark(
            down_trend && !dir_up && lines[v].low < first.low && diverges(vl, ae),
            lines[v].wu,
            Mmd::Buy1,
        ) + opt_mark(
            up_trend && dir_up && lines[v].high > first.high && diverges(vl, ae),
            lines[v].wu,
            Mmd::Sell1,
        )
    } else {
        Seq::empty()
    }
}

pub open spec fn all_first(lines: Seq<Line>, hist: Seq<i64>, ps: Seq<Pivot>, k: int) -> Seq<MmdMark>
    decreases k,
{
    if k < 2 {
        Seq::empty()
    } else {
        all_first(lines, hist, ps, k - 1) + first_marks(lines, hist, ps[k - 2], ps[k - 1])
    }
}

/// Index of the first line ending at raw bar `bar`, searching from `j`.
pub open spec fn line_ending_at(lines: Seq<Line>, bar: usize, j: int) -> Option<int>
    decreases lines.len() - j,
{
    if j < 0 || j >= lines.len() {
        None
    } else if lines[j].wu == bar {
        Some(j)
    } else {
        line_ending_at(lines, bar, j + 1)
    }
}

/// Second buy/sell after a first buy/sell mark `m`: the next line in the
/// same direction as the first one's line retreats less far.
pub open spec fn second_of(lines: Seq<Line>, m: MmdMark) -> Seq<MmdMark> {
    if m.kind is Buy1 || m.kind is Sell1 {
        let is_sell = m.kind is Sell1;
        match line_ending_at(lines, m.bar, 0) {
            Some(bi) => if bi + 2 < lines.len() {
                let d = lines[bi + 2];
                opt_mark(!is_sell && !d.dir_up && d.low > lines[bi].low, d.wu, Mmd::Buy2)
                    + opt_mark(is_sell && d.dir_up && d.high < lines[bi].high, d.wu, Mmd::Sell2)
            } else {
                Seq::empty()
            },
            None => Seq::empty(),
        }
    } else {
        Seq::empty()
    }
}

pub open spec fn all_second(lines: Seq<Line>, s: Seq<MmdMark>, k: int) -> Seq<MmdMark>
    decreases k,
{
    if k <= 0 {
        Seq::empty()
    } else {
        all_second(lines, s, k - 1) + second_of(lines, s[k - 1])
    }
}

/// Consolidation divergence: the leaving line of a pivot makes a new
/// extreme beyond the pivot's first line with a diverging MACD area.
pub open spec fn pz_marks(lines: Seq<Line>, hist: Seq<i64>, p: Pivot) -> Seq<MmdMark> {
    if spec_p_enter(p) is Some && spec_p_leave(lines, p) is Some {
        let e = spec_p_enter(p).unwrap();
        let v = spec_p_leave(lines, p).unwrap();
        let dir_up = lines[v].dir_up;
        let ae = area_of_line(hist, lines[e], dir_up);
        let vl = area_of_line(hist, lines[v], dir_up);
        let first = lines[p.start_li as int];
        let new_ext = if dir_up {
            lines[v].high > first.high
        } else {
            lines[v].low < first.low
        };
        opt_mark(new_ext && diverges(vl, ae), lines[v].wu, Mmd::PzBeichi)
    } else {
        Seq::empty()
    }
}

pub open spec fn all_pz(lines: Seq<Line>, hist: Seq<i64>, ps: Seq<Pivot>, k: int) -> Seq<MmdMark>
    decreases k,
{
    if k <= 0 {
        Seq::empty()
    } else {
        all_pz(lines, hist, ps, k - 1) + pz_marks(lines, hist, ps[k - 1])
    }
}

/// All marks before ordering: third points, first points, second points
/// (one scan of the marks so far), consolidation divergences.
pub open spec fn unsorted_marks(lines: Seq<Line>, ps: Seq<Pivot>, hist: Seq<i64>) -> Seq<MmdMark> {
    let s12 = all_third(lines, ps, ps.len() as int) + all_first(lines, hist, ps, ps.len() as int);
    s12 + all_second(lines, s12, s12.len() as int) + all_pz(lines, hist, ps, ps.len() as int)
}

/// Index of the first mark in `s` (from `j`) with a later bar than `bar`.
pub open spec fn insert_pos(s: Seq<MmdMark>, bar: usize, j: int) -> int
    decreases s.len() - j,
{
    if j < 0 || j >= s.len() {
        s.len() as int
    } else if s[j].bar > bar {
        j
    } else {
        insert_pos(s, bar, j + 1)
    }
}

/// `m` inserted after every mark with a bar no later than its own.
pub open spec fn insert_by_bar(s: Seq<MmdMark>, m: MmdMark) -> Seq<MmdMark> {
    let p = insert_pos(s, m.bar, 0);
    s.take(p).push(m) + s.skip(p)
}

/// Stable sort by bar.
pub open spec fn sort_by_bar(s: Seq<MmdMark>) -> Seq<MmdMark>
    decreases s.len(),
{
    if s.len() == 0 {
        Seq::empty()
    } else {
        insert_by_bar(sort_by_bar(s.drop_last()), s.last())
    }
}

/// The result of `detect_mmds`.
pub open spec fn spec_detect_mmds(lines: Seq<Line>, ps: Seq<Pivot>, hist: Seq<i64>) -> Seq<MmdMark> {
    sort_by_bar(unsorted_marks(lines, ps, hist))
}

pub open spec fn sorted_by_bar(s: Seq<MmdMark>) -> bool {
    forall|a: int, b: int| 0 <= a < b < s.len() ==> #[trigger] s[a].bar <= #[trigger] s[b].bar
}

/// Pivot indices that `detect_mmds` reads exist among `lines`.
pub open spec fn pivot_refs_ok(lines: Seq<Line>, ps: Seq<Pivot>) -> bool {
    forall|k: int|
        0 <= k < ps.len() ==> #[trigger] ps[k].start_li < lines.len() && ps[k].end_li < lines.len()
            && (ps[k].tbs matches Some(t) ==> t < lines.len())
}

/// Every line's bars index the histogram.
pub open spec fn lines_in_hist(lines: Seq<Line>, hist: Seq<i64>) -> bool {
    forall|j: int|
        #![trigger lines[j]]
        0 <= j < lines.len() ==> lines[j].wen < hist.len() && lines[j].wu < hist.len()
}

proof fn lemma_insert_pos(s: Seq<MmdMark>, bar: usize, j: int)
    requires
        0 <= j,
    ensures
        j <= insert_pos(s, bar, j) <= s.len() || (j > s.len() && insert_pos(s, bar, j) == s.len()),
        forall|t: int| j <= t < insert_pos(s, bar, j) ==> #[trigger] s[t].bar <= bar,
        insert_pos(s, bar, j) < s.len() ==> s[insert_pos(s, bar, j)].bar > bar,
    decreases s.len() - j,
{
    if j < s.len() && s[j].bar <= bar {
        lemma_insert_pos(s, bar, j + 1);
    }
}

proof fn lemma_insert_sorted(s: Seq<MmdMark>, m: MmdMark)
    requires
        sorted_by_bar(s),
    ensures
        sorted_by_bar(insert_by_bar(s, m)),
        insert_by_bar(s, m).to_multiset() == s.to_multiset().insert(m),
{
    let p = insert_pos(s, m.bar, 0);
    lemma_insert_pos(s, m.bar, 0);
    let r = insert_by_bar(s, m);
    assert(r.len() == s.len() + 1);
    assert forall|t: int| 0 <= t < r.len() implies #[trigger] r[t] == (if t < p {
        s[t]
    } else if t == p {
        m
    } else {
        s[t - 1]
    }) by {}
    assert forall|a: int, b: int| 0 <= a < b < r.len() implies #[trigger] r[a].bar
        <= #[trigger] r[b].bar by {
        assert(r[a] == (if a < p {
            s[a]
        } else if a == p {
            m
        } else {
            s[a - 1]
        }));
        assert(r[b] == (if b < p {
            s[b]
        } else if b == p {
            m
        } else {
            s[b - 1]
        }));
        if a < p && b > p {
            assert(s[a].bar <= s[b - 1].bar);
        }
        if a == p && b > p {
            assert(s[p].bar > m.bar);
            if b - 1 > p {
                assert(s[p].bar <= s[b - 1].bar);
            }
        }
    }
    vstd::seq_lib::lemma_seq_union_to_multiset_commutative(s.take(p).push(m), s.skip(p));
    vstd::seq_lib::lemma_multiset_commutative(s.take(p).push(m), s.skip(p));
    vstd::seq_lib::lemma_multiset_commutative(s.take(p), s.skip(p));
    assert(s.take(p) + s.skip(p) == s);
    assert(s.take(p).push(m).to_multiset() == s.take(p).to_multiset().insert(m)) by {
        s.take(p).to_multiset_ensures();
    }
}

/// A second buy at bar `b` ends a down line two lines after a line that
/// ends at a first buy in `out`, and that down line stays above the first
/// buy line's low.
pub open spec fn buy2_backed(lines: Seq<Line>, out: Seq<MmdMark>, b: usize) -> bool {
    exists|x: int|
        #![trigger lines[x]]
        0 <= x && x + 2 < lines.len() && lines[x + 2].wu == b && !lines[x + 2].dir_up
            && lines[x + 2].low > lines[x].low && out.contains(mark(lines[x].wu, Mmd::Buy1))
}

/// A second sell at bar `b` ends an up line two lines after a line that
/// ends at a first sell in `out`, and that up line stays below the first
/// sell line's high.
pub open spec fn sell2_backed(lines: Seq<Line>, out: Seq<MmdMark>, b: usize) -> bool {
    exists|x: int|
        #![trigger lines[x]]
        0 <= x && x + 2 < lines.len() && lines[x + 2].wu == b && lines[x + 2].dir_up
            && lines[x + 2].high < lines[x].high && out.contains(mark(lines[x].wu, Mmd::Sell1))
}

/// Every second buy/sell point in `out` is backed by a first one.
pub open spec fn seconds_backed(lines: Seq<Line>, out: Seq<MmdMark>) -> bool {
    forall|a: int|
        0 <= a < out.len() ==> {
            &&& (#[trigger] out[a].kind == Mmd::Buy2 ==> buy2_backed(lines, out, out[a].bar))
            &&& (out[a].kind == Mmd::Sell2 ==> sell2_backed(lines, out, out[a].bar))
        }
}

/// No second buy/sell point among `s`.
pub open spec fn no_seconds(s: Seq<MmdMark>) -> bool {
    forall|a: int| 0 <= a < s.len() ==> #[trigger] s[a].kind != Mmd::Buy2 && s[a].kind != Mmd::Sell2
}

proof fn lemma_no_seconds_concat(a: Seq<MmdMark>, b: Seq<MmdMark>)
    requires
        no_seconds(a),
        no_seconds(b),
    ensures
        no_seconds(a + b),
{
    assert forall|t: int| 0 <= t < (a + b).len() implies #[trigger] (a + b)[t].kind != Mmd::Buy2
        && (a + b)[t].kind != Mmd::Sell2 by {
        if t < a.len() {
            assert((a + b)[t] == a[t]);
        } else {
            assert((a + b)[t] == b[t - a.len()]);
        }
    }
}

proof fn lemma_third_no_seconds(lines: Seq<Line>, ps: Seq<Pivot>, k: int)
    ensures
        no_seconds(all_third(lines, ps, k)),
    decreases k,
{
    if k > 0 {
        lemma_third_no_seconds(lines, ps, k - 1);
        lemma_no_seconds_concat(all_third(lines, ps, k - 1), third_marks(lines, ps[k - 1]));
    }
}

proof fn lemma_first_no_seconds(lines: Seq<Line>, hist: Seq<i64>, ps: Seq<Pivot>, k: int)
    ensures
        no_seconds(all_first(lines, hist, ps, k)),
    decreases k,
{
    if k >= 2 {
        lemma_first_no_seconds(lines, hist, ps, k - 1);
        lemma_no_seconds_concat(all_first(lines, hist, ps, k - 1), first_marks(lines, hist, ps[k - 2], ps[k - 1]));
    }
}

proof fn lemma_pz_no_seconds(lines: Seq<Line>, hist: Seq<i64>, ps: Seq<Pivot>, k: int)
    ensures
        no_seconds(all_pz(lines, hist, ps, k)),
    decreases k,
{
    if k > 0 {
        lemma_pz_no_seconds(lines, hist, ps, k - 1);
        lemma_no_seconds_concat(all_pz(lines, hist, ps, k - 1), pz_marks(lines, hist, ps[k - 1]));
    }
}

proof fn lemma_line_ending_at(lines: Seq<Line>, bar: usize, j: int)
    requires
        0 <= j,
    ensures
        line_ending_at(lines, bar, j) matches Some(x) ==> j <= x < lines.len() && lines[x].wu == bar,
    decreases lines.len() - j,
{
    if j < lines.len() && lines[j].wu != bar {
        lemma_line_ending_at(lines, bar, j + 1);
    }
}

/// Second points found from the first points among `s` are backed by them.
proof fn lemma_second_backed(lines: Seq<Line>, s: Seq<MmdMark>, k: int)
    requires
        k <= s.len(),
    ensures
        forall|a: int|
            0 <= a < all_second(lines, s, k).len() ==> {
                &&& (#[trigger] all_second(lines, s, k)[a].kind == Mmd::Buy2 ==> buy2_backed(
                    lines,
                    s,
                    all_second(lines, s, k)[a].bar,
                ))
                &&& (all_second(lines, s, k)[a].kind == Mmd::Sell2 ==> sell2_backed(
                    lines,
                    s,
                    all_second(lines, s, k)[a].bar,
                ))
            },
    decreases k,
{
    if k > 0 {
        lemma_second_backed(lines, s, k - 1);
        let prev = all_second(lines, s, k - 1);
        let m = s[k - 1];
        let cur = second_of(lines, m);
        let r = all_second(lines, s, k);
        assert(r == prev + cur);
        lemma_line_ending_at(lines, m.bar, 0);
        assert forall|a: int| 0 <= a < r.len() implies {
            &&& (#[trigger] r[a].kind == Mmd::Buy2 ==> buy2_backed(lines, s, r[a].bar))
            &&& (r[a].kind == Mmd::Sell2 ==> sell2_backed(lines, s, r[a].bar))
        } by {
            if a < prev.len() {
                assert(r[a] == prev[a]);
            } else {
                assert(r[a] == cur[a - prev.len()]);
                if let Some(x) = line_ending_at(lines, m.bar, 0) {
                    assert(mark(lines[x].wu, m.kind) == m);
                    assert(s.contains(s[k - 1]));
                    if r[a].kind == Mmd::Buy2 {
                        assert(lines[x] == lines[x]);
                    }
                    if r[a].kind == Mmd::Sell2 {
                        assert(lines[x] == lines[x]);
                    }
                }
            }
        }
    }
}

/// Second buy/sell points are backed by first ones: every second buy ends a
/// down line two lines after a first-buy line and stays above its low, and
/// every second sell ends an up line two lines after a first-sell line and
/// stays below its high.
pub proof fn lemma_seconds_backed(lines: Seq<Line>, ps: Seq<Pivot>, hist: Seq<i64>)
    ensures
        seconds_backed(lines, spec_detect_mmds(lines, ps, hist)),
{
    let t3 = all_third(lines, ps, ps.len() as int);
    let f1 = all_first(lines, hist, ps, ps.len() as int);
    let s12 = t3 + f1;
    let sec = all_second(lines, s12, s12.len() as int);
    let pz = all_pz(lines, hist, ps, ps.len() as int);
    let u = unsorted_marks(lines, ps, hist);
    assert(u == s12 + sec + pz);
    let out = spec_detect_mmds(lines, ps, hist);
    lemma_sort_by_bar(u);
    u.to_multiset_ensures();
    out.to_multiset_ensures();
    lemma_third_no_seconds(lines, ps, ps.len() as int);
    lemma_first_no_seconds(lines, hist, ps, ps.len() as int);
    lemma_pz_no_seconds(lines, hist, ps, ps.len() as int);
    lemma_no_seconds_concat(t3, f1);
    lemma_second_backed(lines, s12, s12.len() as int);
    assert forall|a: int| 0 <= a < out.len() implies {
        &&& (#[trigger] out[a].kind == Mmd::Buy2 ==> buy2_backed(lines, out, out[a].bar))
        &&& (out[a].kind == Mmd::Sell2 ==> sell2_backed(lines, out, out[a].bar))
    } by {
        let m = out[a];
        if m.kind == Mmd::Buy2 || m.kind == Mmd::Sell2 {
            assert(out.contains(m));
            assert(out.to_multiset().count(m) > 0);
            assert(u.to_multiset().count(m) > 0);
            assert(u.contains(m));
            let t = choose|t: int| 0 <= t < u.len() && u[t] == m;
            let n12 = s12.len() as int;
            let nsec = sec.len() as int;
            if t < n12 {
                assert(u[t] == s12[t]);
            } else if t >= n12 + nsec {
                assert(u[t] == pz[t - n12 - nsec]);
            } else {
                assert(u[t] == sec[t - n12]);
                if m.kind == Mmd::Buy2 {
                    assert(buy2_backed(lines, s12, m.bar));
                    let x = choose|x: int|
                        #![trigger lines[x]]
                        0 <= x && x + 2 < lines.len() && lines[x + 2].wu == m.bar
                            && !lines[x + 2].dir_up && lines[x + 2].low > lines[x].low
                            && s12.contains(mark(lines[x].wu, Mmd::Buy1));
                    let w = mark(lines[x].wu, Mmd::Buy1);
                    let q = choose|q: int| 0 <= q < s12.len() && s12[q] == w;
                    assert(u[q] == s12[q]);
                    assert(u.contains(w));
                    assert(u.to_multiset().count(w) > 0);
                    assert(out.to_multiset().count(w) > 0);
                    assert(out.contains(w));
                    assert(lines[x] == lines[x]);
                } else {
                    assert(sell2_backed(lines, s12, m.bar));
                    let x = choose|x: int|
                        #![trigger lines[x]]
                        0 <= x && x + 2 < lines.len() && lines[x + 2].wu == m.bar
                            && lines[x + 2].dir_up && lines[x + 2].high < lines[x].high
                            && s12.contains(mark(lines[x].wu, Mmd::Sell1));
                    let w = mark(lines[x].wu, Mmd::Sell1);
                    let q = choose|q: int| 0 <= q < s12.len() && s12[q] == w;
                    assert(u[q] == s12[q]);
                    assert(u.contains(w));
                    assert(u.to_multiset().count(w) > 0);
                    assert(out.to_multiset().count(w) > 0);
                    assert(out.contains(w));
                    assert(lines[x] == lines[x]);
                }
            }
        }
    }
}

/// Sorting by bar yields a sorted permutation.
pub proof fn lemma_sort_by_bar(s: Seq<MmdMark>)
    ensures
        sorted_by_bar(sort_by_bar(s)),
        sort_by_bar(s).to_multiset() == s.to_multiset(),
    decreases s.len(),
{
    if s.len() > 0 {
        lemma_sort_by_bar(s.drop_last());
        lemma_insert_sorted(sort_by_bar(s.drop_last()), s.last());
        let d = s.drop_last();
        d.to_multiset_ensures();
        assert(d.push(s.last()).to_multiset() =~= d.to_multiset().insert(s.last()));
        assert(d.push(s.last()) == s);
    } else {
        assert(s =~= Seq::<MmdMark>::empty());
    }
}

/// Stable insertion sort by bar.
fn sort_marks(marks: Vec<MmdMark>) -> (out: Vec<MmdMark>)
    ensures
        out@ == sort_by_bar(marks@),
{
    let mut out: Vec<MmdMark> = Vec::new();
    let mut i: usize = 0;
    while i < marks.len()
        invariant
            i <= marks@.len(),
            out@ == sort_by_bar(marks@.take(i as int)),
        decreases marks@.len() - i,
    {
        let m = marks[i];
        let mut p: usize = 0;
        while p < out.len() && out[p].bar <= m.bar
            invariant
                p <= out@.len(),
                insert_pos(out@, m.bar, 0) == insert_pos(out@, m.bar, p as int),
            decreases out@.len() - p,
        {
            p += 1;
        }
        let ghost before = out@;
        out.insert(p, m);
        proof {
            assert(marks@.take(i + 1).drop_last() == marks@.take(i as int));
            assert(marks@.take(i + 1).last() == m);
            assert(out@ =~= insert_by_bar(before, m));
        }
        i += 1;
    }
    proof {
        assert(marks@.take(marks@.len() as int) == marks@);
    }
    out
}

fn diverging(vl: i128, ae: i128) -> (r: bool)
    ensures
        r == diverges(vl as int, ae as int),
{
    if ae == 0 {
        return false;
    }
    let va = if vl < 0 {
        if vl == i128::MIN {
            return false;
        }
        -vl
    } else {
        vl
    };
    let aa = if ae < 0 {
        if ae == i128::MIN {
            return true;
        }
        -ae
    } else {
        ae
    };
    va < aa
}

fn push_if(v: &mut Vec<MmdMark>, c: bool, bar: usize, kind: Mmd)
    ensures
        final(v)@ == old(v)@ + opt_mark(c, bar, kind),
{
    if c {
        v.push(MmdMark { bar, kind });
    }
    proof {
        assert(final(v)@ =~= old(v)@ + opt_mark(c, bar, kind));
    }
}

fn third_of(lines: &[Line], p: &Pivot) -> (r: Vec<MmdMark>)
    ensures
        r@ == third_marks(lines@, *p),
{
    let mut r: Vec<MmdMark> = Vec::new();
    if lines.len() > 0 && p.end_li < lines.len() - 1 {
        let j = p.end_li + 1;
        let l = lines[j];
        if rel(p.zg, p.zd, l.high, l.low).is_gap() {
            push_if(&mut r, !l.dir_up && l.low > p.zg, l.wu, Mmd::Buy3);
            push_if(&mut r, l.dir_up && l.high < p.zd, l.wu, Mmd::Sell3);
            proof {
                assert(r@ =~= third_marks(lines@, *p));
            }
        }
    }
    r
}

fn line_area(hist: &[i64], l: &Line, dir_up: bool) -> (r: i128)
    requires
        l.wen < hist@.len(),
        l.wu < hist@.len(),
        hist@.len() <= max_hist(),
    ensures
        r == area_of_line(hist@, *l, dir_up),
{
    macd_area(hist, l.wen, l.wu, dir_up, false)
}

fn first_of(lines: &[Line], hist: &[i64], a: &Pivot, b: &Pivot) -> (r: Vec<MmdMark>)
    requires
        b.start_li < lines@.len(),
        b.tbs matches Some(t) ==> t < lines@.len(),
        lines_in_hist(lines@, hist@),
        hist@.len() <= max_hist(),
    ensures
        r@ == first_marks(lines@, hist@, *a, *b),
{
    let mut r: Vec<MmdMark> = Vec::new();
    let down_trend = b.zg < a.zd;
    let up_trend = b.zd > a.zg;
    if !down_trend && !up_trend {
        return r;
    }
    if let (Some(e), Some(v)) = (p_enter(b), p_leave(lines, b)) {
        let lv = lines[v];
        let le = lines[e];
        proof {
            assert(v < lines@.len() && e < lines@.len());
            assert(lv == lines@[v as int] && le == lines@[e as int]);
        }
        let dir_up = lv.dir_up;
        let ae = line_area(hist, &le, dir_up);
        let vl = line_area(hist, &lv, dir_up);
        let first = lines[b.start_li];
        let div = diverging(vl, ae);
        push_if(&mut r, down_trend && !dir_up && lv.low < first.low && div, lv.wu, Mmd::Buy1);
        push_if(&mut r, up_trend && dir_up && lv.high > first.high && div, lv.wu, Mmd::Sell1);
        proof {
            assert(r@ =~= first_marks(lines@, hist@, *a, *b));
        }
    }
    r
}

fn find_line_ending_at(lines: &[Line], bar: usize) -> (r: Option<usize>)
    ensures
        (match r {
            Some(x) => Some(x as int),
            None => None::<int>,
        }) == line_ending_at(lines@, bar, 0),
        r matches Some(x) ==> x < lines@.len(),
{
    let mut j: usize = 0;
    while j < lines.len()
        invariant
            j <= lines@.len(),
            line_ending_at(lines@, bar, 0) == line_ending_at(lines@, bar, j as int),
        decreases lines@.len() - j,
    {
        if lines[j].wu == bar {
            return Some(j);
        }
        j += 1;
    }
    None
}

fn second_of_mark(lines: &[Line], m: MmdMark) -> (r: Vec<MmdMark>)
    ensures
        r@ == second_of(lines@, m),
{
    let mut r: Vec<MmdMark> = Vec::new();
    let is_sell = match m.kind {
        Mmd::Buy1 => false,
        Mmd::Sell1 => true,
        _ => {
            return r;
        },
    };
    if let Some(bi) = find_line_ending_at(lines, m.bar) {
        if lines.len() - bi > 2 {
            let d = lines[bi + 2];
            let base = lines[bi];
            push_if(&mut r, !is_sell && !d.dir_up && d.low > base.low, d.wu, Mmd::Buy2);
            push_if(&mut r, is_sell && d.dir_up && d.high < base.high, d.wu, Mmd::Sell2);
            proof {
                assert(r@ =~= second_of(lines@, m));
            }
        }
    }
    r
}

fn pz_of(lines: &[Line], hist: &[i64], p: &Pivot) -> (r: Vec<MmdMark>)
    requires
        p.start_li < lines@.len(),
        p.tbs matches Some(t) ==> t < lines@.len(),
        lines_in_hist(lines@, hist@),
        hist@.len() <= max_hist(),
    ensures
        r@ == pz_marks(lines@, hist@, *p),
{
    let mut r: Vec<MmdMark> = Vec::new();
    if let (Some(e), Some(v)) = (p_enter(p), p_leave(lines, p)) {
        let lv = lines[v];
        let le = lines[e];
        proof {
            assert(v < lines@.len() && e < lines@.len());
            assert(lv == lines@[v as int] && le == lines@[e as int]);
        }
        let dir_up = lv.dir_up;
        let ae = line_area(hist, &le, dir_up);
        let vl = line_area(hist, &lv, dir_up);
        let first = lines[p.start_li];
        let new_ext = if dir_up {
            lv.high > first.high
        } else {
            lv.low < first.low
        };
        let div = diverging(vl, ae);
        push_if(&mut r, new_ext && div, lv.wu, Mmd::PzBeichi);
        proof {
            assert(r@ =~= pz_marks(lines@, hist@, *p));
        }
    }
    r
}

/// Buy/sell points of stroke lines and their pivots, with MACD histogram
/// `hist` (hundredths, one value per raw bar), ordered by bar (stable).
pub fn detect_mmds(lines: &[Line], bi_pivots: &[Pivot], hist: &[i64]) -> (out: Vec<MmdMark>)
    requires
        pivot_refs_ok(lines@, bi_pivots@),
        lines_in_hist(lines@, hist@),
        hist@.len() <= max_hist(),
    ensures
        out@ == spec_detect_mmds(lines@, bi_pivots@, hist@),
        sorted_by_bar(out@),
        out@.to_multiset() == unsorted_marks(lines@, bi_pivots@, hist@).to_multiset(),
        seconds_backed(lines@, out@),
        forall|nb: int| #[trigger] lines_below(lines@, nb) ==> marks_below(out@, nb),
{
    proof {
        lemma_seconds_backed(lines@, bi_pivots@, hist@);
    }
    let ghost ls = lines@;
    let ghost ps = bi_pivots@;
    let ghost hs = hist@;
    let np = bi_pivots.len();
    let mut out: Vec<MmdMark> = Vec::new();
    let mut k: usize = 0;
    while k < np
        invariant
            np == ps.len(),
            ls == lines@,
            ps == bi_pivots@,
            hs == hist@,
            k <= np,
            out@ == all_third(ls, ps, k as int),
        decreases np - k,
    {
        let mut v = third_of(lines, &bi_pivots[k]);
        out.append(&mut v);
        k += 1;
    }
    let ghost t3 = out@;
    if np >= 2 {
        let mut k: usize = 1;
        while k < np
            invariant
                np == ps.len(),
            ls == lines@,
            ps == bi_pivots@,
            hs == hist@,
                1 <= k <= np,
                pivot_refs_ok(ls, ps),
                lines_in_hist(ls, hs),
                hs.len() <= max_hist(),
                out@ == t3 + all_first(ls, hs, ps, k as int),
            decreases np - k,
        {
            proof {
                assert(ps[k as int].start_li < ls.len());
            }
            let mut v = first_of(lines, hist, &bi_pivots[k - 1], &bi_pivots[k]);
            out.append(&mut v);
            proof {
                assert(out@ =~= t3 + all_first(ls, hs, ps, k + 1));
            }
            k += 1;
        }
    }
    let ghost s12 = out@;
    proof {
        assert(s12 =~= all_third(ls, ps, ps.len() as int) + all_first(ls, hs, ps, ps.len() as int));
    }
    let k12 = out.len();
    let mut t: usize = 0;
    while t < k12
        invariant
            k12 == s12.len(),
            ls == lines@,
            t <= k12,
            out@ == s12 + all_second(ls, s12, t as int),
        decreases k12 - t,
    {
        let m = out[t];
        proof {
            assert(m == s12[t as int]);
        }
        let mut v = second_of_mark(lines, m);
        out.append(&mut v);
        proof {
            assert(out@ =~= s12 + all_second(ls, s12, t + 1));
        }
        t += 1;
    }
    let ghost s123 = out@;
    let mut k: usize = 0;
    while k < np
        invariant
            np == ps.len(),
            ls == lines@,
            ps == bi_pivots@,
            hs == hist@,
            k <= np,
            pivot_refs_ok(ls, ps),
            lines_in_hist(ls, hs),
            hs.len() <= max_hist(),
            out@ == s123 + all_pz(ls, hs, ps, k as int),
        decreases np - k,
    {
        proof {
            assert(ps[k as int].start_li < ls.len());
        }
        let mut v = pz_of(lines, hist, &bi_pivots[k]);
        out.append(&mut v);
        proof {
            assert(out@ =~= s123 + all_pz(ls, hs, ps, k + 1));
        }
        k += 1;
    }
    proof {
        assert(out@ =~= unsorted_marks(ls, ps, hs));
        lemma_sort_by_bar(out@);
        assert forall|nb: int| #[trigger] lines_below(ls, nb) implies marks_below(
            sort_by_bar(out@),
            nb,
        ) by {
            lemma_phases_below(ls, ps, hs, nb);
            lemma_sort_below(out@, nb);
        }
    }
    sort_marks(out)
}

/// Every mark is at a raw bar below `nb`.
pub open spec fn marks_below(s: Seq<MmdMark>, nb: int) -> bool {
    forall|k: int| 0 <= k < s.len() ==> #[trigger] s[k].bar < nb
}

proof fn lemma_concat_below(a: Seq<MmdMark>, b: Seq<MmdMark>, nb: int)
    requires
        marks_below(a, nb),
        marks_below(b, nb),
    ensures
        marks_below(a + b, nb),
{
    assert forall|k: int| 0 <= k < (a + b).len() implies #[trigger] (a + b)[k].bar < nb by {
        if k < a.len() {
            assert((a + b)[k] == a[k]);
        } else {
            assert((a + b)[k] == b[k - a.len()]);
        }
    }
}

proof fn lemma_opt_below(c: bool, bar: usize, kind: Mmd, nb: int)
    requires
        c ==> bar < nb,
    ensures
        marks_below(opt_mark(c, bar, kind), nb),
{
}

proof fn lemma_phases_below(lines: Seq<Line>, ps: Seq<Pivot>, hist: Seq<i64>, nb: int)
    requires
        lines_below(lines, nb),
        pivot_refs_ok(lines, ps),
    ensures
        marks_below(unsorted_marks(lines, ps, hist), nb),
{
    lemma_third_below(lines, ps, ps.len() as int, nb);
    lemma_first_below(lines, hist, ps, ps.len() as int, nb);
    let s12 = all_third(lines, ps, ps.len() as int) + all_first(lines, hist, ps, ps.len() as int);
    lemma_concat_below(all_third(lines, ps, ps.len() as int), all_first(lines, hist, ps, ps.len() as int), nb);
    lemma_second_below(lines, s12, s12.len() as int, nb);
    lemma_pz_below(lines, hist, ps, ps.len() as int, nb);
    lemma_concat_below(s12, all_second(lines, s12, s12.len() as int), nb);
    lemma_concat_below(s12 + all_second(lines, s12, s12.len() as int), all_pz(lines, hist, ps, ps.len() as int), nb);
}

proof fn lemma_third_below(lines: Seq<Line>, ps: Seq<Pivot>, k: int, nb: int)
    requires
        lines_below(lines, nb),
        k <= ps.len(),
    ensures
        marks_below(all_third(lines, ps, k), nb),
    decreases k,
{
    if k > 0 {
        lemma_third_below(lines, ps, k - 1, nb);
        let p = ps[k - 1];
        let j = p.end_li + 1;
        if j < lines.len() {
            assert(lines[j as int].wu < nb);
        }
        lemma_opt_below(true, 0, Mmd::Buy3, 1);
        assert(marks_below(third_marks(lines, p), nb));
        lemma_concat_below(all_third(lines, ps, k - 1), third_marks(lines, p), nb);
    }
}

proof fn lemma_first_below(lines: Seq<Line>, hist: Seq<i64>, ps: Seq<Pivot>, k: int, nb: int)
    requires
        lines_below(lines, nb),
        pivot_refs_ok(lines, ps),
        k <= ps.len(),
    ensures
        marks_below(all_first(lines, hist, ps, k), nb),
    decreases k,
{
    if k >= 2 {
        lemma_first_below(lines, hist, ps, k - 1, nb);
        let b = ps[k - 1];
        assert(ps[k - 1].start_li < lines.len());
        if spec_p_leave(lines, b) is Some {
            let v = spec_p_leave(lines, b).unwrap();
            assert(lines[v].wu < nb);
        }
        assert(marks_below(first_marks(lines, hist, ps[k - 2], b), nb));
        lemma_concat_below(all_first(lines, hist, ps, k - 1), first_marks(lines, hist, ps[k - 2], b), nb);
    }
}

proof fn lemma_second_below(lines: Seq<Line>, s: Seq<MmdMark>, k: int, nb: int)
    requires
        lines_below(lines, nb),
        k <= s.len(),
    ensures
        marks_below(all_second(lines, s, k), nb),
    decreases k,
{
    if k > 0 {
        lemma_second_below(lines, s, k - 1, nb);
        let m = s[k - 1];
        lemma_line_ending_at(lines, m.bar, 0);
        if line_ending_at(lines, m.bar, 0) is Some {
            let bi = line_ending_at(lines, m.bar, 0).unwrap();
            if bi + 2 < lines.len() {
                assert(lines[bi + 2].wu < nb);
            }
        }
        assert(marks_below(second_of(lines, m), nb));
        lemma_concat_below(all_second(lines, s, k - 1), second_of(lines, m), nb);
    }
}

proof fn lemma_pz_below(lines: Seq<Line>, hist: Seq<i64>, ps: Seq<Pivot>, k: int, nb: int)
    requires
        lines_below(lines, nb),
        pivot_refs_ok(lines, ps),
        k <= ps.len(),
    ensures
        marks_below(all_pz(lines, hist, ps, k), nb),
    decreases k,
{
    if k > 0 {
        lemma_pz_below(lines, hist, ps, k - 1, nb);
        let p = ps[k - 1];
        assert(ps[k - 1].start_li < lines.len());
        if spec_p_leave(lines, p) is Some {
            let v = spec_p_leave(lines, p).unwrap();
            assert(lines[v].wu < nb);
        }
        assert(marks_below(pz_marks(lines, hist, p), nb));
        lemma_concat_below(all_pz(lines, hist, ps, k - 1), pz_marks(lines, hist, p), nb);
    }
}

proof fn lemma_sort_below(s: Seq<MmdMark>, nb: int)
    requires
        marks_below(s, nb),
    ensures
        marks_below(sort_by_bar(s), nb),
    decreases s.len(),
{
    if s.len() > 0 {
        let d = s.drop_last();
        assert(marks_below(d, nb)) by {
            assert forall|k: int| 0 <= k < d.len() implies #[trigger] d[k].bar < nb by {
                assert(d[k] == s[k]);
            }
        }
        lemma_sort_below(d, nb);
        let t = sort_by_bar(d);
        let m = s.last();
        let p = insert_pos(t, m.bar, 0);
        lemma_insert_pos(t, m.bar, 0);
        let r = insert_by_bar(t, m);
        assert forall|k: int| 0 <= k < r.len() implies #[trigger] r[k].bar < nb by {
            if k < p {
                assert(r[k] == t[k]);
            } else if k == p {
                assert(r[k] == m);
            } else {
                assert(r[k] == t[k - 1]);
            }
        }
    }
}

} // verus!
