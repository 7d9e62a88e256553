//! Merged K-lines (inclusion handling), fractal marks and fractal collection.

use vstd::prelude::*;
use super::relation::{rel, lemma_rel_classes, Rel};

verus! {

/// A raw bar. Prices are order-preserving integer keys.
#[derive(Clone, Copy, Debug)]
pub struct Bar {
    pub ts: i64,
    pub open: i64,
    pub high: i64,
    pub low: i64,
    pub close: i64,
}

/// Fractal structure of a merged K-line relative to its neighbours.
#[derive(Clone, Copy, PartialEq, Eq, Debug, Structural)]
pub enum Kind {
    Up,
    Down,
    Top,
    Bottom,
}

/// A merged K-line.
#[derive(Clone, Copy, Debug)]
pub struct ChanK {
    /// first raw bar merged into this K-line
    pub raw_start: usize,
    /// last raw bar merged into this K-line
    pub raw_end: usize,
    /// raw bar that carries this K-line's marks (moved by every merge that
    /// is not a `Shun` containment)
    pub mark_bar: usize,
    pub high: i64,
    pub low: i64,
    /// final fractal mark (including the provisional mark on the right end)
    pub kind: Option<Kind>,
    /// fractal value: the high for a top, the low for a bottom
    pub feat: i64,
}

pub open spec fn min_i64(a: i64, b: i64) -> i64 {
    if a <= b { a } else { b }
}

pub open spec fn max_i64(a: i64, b: i64) -> i64 {
    if a >= b { a } else { b }
}

pub open spec fn new_chank(i: int, b: Bar, kind: Option<Kind>) -> ChanK {
    ChanK {
        raw_start: i as usize,
        raw_end: i as usize,
        mark_bar: i as usize,
        high: b.high,
        low: b.low,
        kind: kind,
        feat: 0,
    }
}

/// One step of K-line merging: bar `b` (raw index `i`) is either merged into
/// the last K-line (when one range contains the other) or starts a new one.
/// A merge keeps the lower high and lower low when the last two K-lines go
/// down, the higher ones otherwise.
pub open spec fn merge_step(ks: Seq<ChanK>, i: int, b: Bar) -> Seq<ChanK> {
    if ks.len() == 0 {
        seq![new_chank(i, b, None)]
    } else {
        let last = ks.last();
        let r = rel(last.high, last.low, b.high, b.low);
        if r.is_contain() {
            let take_min = ks.len() >= 2 && rel(
                ks[ks.len() - 2].high,
                ks[ks.len() - 2].low,
                last.high,
                last.low,
            ).is_down();
            let merged = ChanK {
                raw_end: i as usize,
                mark_bar: if r != Rel::Shun { i as usize } else { last.mark_bar },
                high: if take_min { min_i64(last.high, b.high) } else { max_i64(last.high, b.high) },
                low: if take_min { min_i64(last.low, b.low) } else { max_i64(last.low, b.low) },
                ..last
            };
            ks.update(ks.len() - 1, merged)
        } else {
            ks.push(new_chank(i, b, Some(if r.is_down() { Kind::Down } else { Kind::Up })))
        }
    }
}

/// The merged K-lines of a bar sequence, before fractal marking.
pub open spec fn merged_klines(bars: Seq<Bar>) -> Seq<ChanK>
    decreases bars.len(),
{
    if bars.len() == 0 {
        Seq::empty()
    } else {
        merge_step(merged_klines(bars.drop_last()), bars.len() - 1, bars.last())
    }
}

/// Fractal kind of the middle of three K-lines; none when a neighbour pair
/// is in containment.
pub open spec fn spec_triple_kind(l: ChanK, m: ChanK, r: ChanK) -> Option<Kind> {
    let lr = rel(l.high, l.low, m.high, m.low);
    let rr = rel(m.high, m.low, r.high, r.low);
    if lr.is_contain() || rr.is_contain() {
        None
    } else if lr.is_up() {
        if rr.is_up() { Some(Kind::Up) } else { Some(Kind::Top) }
    } else {
        if rr.is_up() { Some(Kind::Bottom) } else { Some(Kind::Down) }
    }
}

/// Value recorded for the middle K-line of a triple of kind `k`.
pub open spec fn mid_feat(k: Kind, m: ChanK) -> i64 {
    match k {
        Kind::Top | Kind::Up => m.high,
        Kind::Bottom | Kind::Down => m.low,
    }
}

/// Provisional mark given to the right K-line of a triple of kind `k`.
pub open spec fn right_kind(k: Kind) -> Kind {
    match k {
        Kind::Bottom | Kind::Up => Kind::Top,
        Kind::Top | Kind::Down => Kind::Bottom,
    }
}

pub open spec fn right_feat(k: Kind, r: ChanK) -> i64 {
    match k {
        Kind::Bottom | Kind::Up => r.high,
        Kind::Top | Kind::Down => r.low,
    }
}

/// Final mark of K-line `j`: its own triple when it has one, otherwise the
/// provisional right mark of the triple before it, otherwise unchanged.
pub open spec fn mark_at(ks: Seq<ChanK>, j: int) -> ChanK {
    let k = ks[j];
    if 1 <= j < ks.len() - 1 && spec_triple_kind(ks[j - 1], ks[j], ks[j + 1]) is Some {
        let t = spec_triple_kind(ks[j - 1], ks[j], ks[j + 1]).unwrap();
        ChanK { kind: Some(t), feat: mid_feat(t, k), ..k }
    } else if 2 <= j < ks.len() && spec_triple_kind(ks[j - 2], ks[j - 1], ks[j]) is Some {
        let t = spec_triple_kind(ks[j - 2], ks[j - 1], ks[j]).unwrap();
        ChanK { kind: Some(right_kind(t)), feat: right_feat(t, k), ..k }
    } else {
        k
    }
}

pub open spec fn marked(ks: Seq<ChanK>) -> Seq<ChanK> {
    Seq::new(ks.len(), |j: int| mark_at(ks, j))
}

/// The result of `merge_and_mark`.
pub open spec fn spec_merge_and_mark(bars: Seq<Bar>) -> Seq<ChanK> {
    marked(merged_klines(bars))
}

/// No two neighbouring K-lines are in containment.
pub open spec fn no_containment(ks: Seq<ChanK>) -> bool {
    forall|i: int|
        0 <= i < ks.len() - 1 ==> !(#[trigger] rel(
            ks[i].high,
            ks[i].low,
            ks[i + 1].high,
            ks[i + 1].low,
        )).is_contain()
}

/// The K-lines cover the raw bars `0..n` in order, each raw span holding its mark bar.
pub open spec fn covers_bars(ks: Seq<ChanK>, n: int) -> bool {
    &&& (n == 0 <==> ks.len() == 0)
    &&& (ks.len() > 0 ==> ks[0].raw_start == 0 && ks.last().raw_end == n - 1)
    &&& forall|i: int|
        #![trigger ks[i]]
        0 <= i < ks.len() ==> ks[i].raw_start <= ks[i].mark_bar <= ks[i].raw_end < n
    &&& forall|i: int|
        #![trigger ks[i]]
        0 <= i < ks.len() - 1 ==> ks[i + 1].raw_start == ks[i].raw_end + 1
}

/// Shape of one merge step: either the last K-line is replaced (merge) or a
/// new one is appended.
proof fn lemma_merge_step_shape(ks: Seq<ChanK>, i: int, b: Bar)
    requires
        ks.len() > 0,
        0 <= i <= usize::MAX,
    ensures
        ({
            let res = merge_step(ks, i, b);
            let last = ks.last();
            let r = rel(last.high, last.low, b.high, b.low);
            &&& r.is_contain() ==> {
                &&& res.len() == ks.len()
                &&& forall|k: int| 0 <= k < ks.len() - 1 ==> #[trigger] res[k] == ks[k]
                &&& res.last().raw_start == last.raw_start
                &&& res.last().raw_end == i
                &&& (res.last().mark_bar == i || res.last().mark_bar == last.mark_bar)
            }
            &&& !r.is_contain() ==> {
                &&& res == ks.push(new_chank(i, b, Some(if r.is_down() { Kind::Down } else { Kind::Up })))
            }
        }),
{
}

proof fn lemma_merged_no_containment(bars: Seq<Bar>)
    requires
        bars.len() <= usize::MAX,
    ensures
        no_containment(merged_klines(bars)),
    decreases bars.len(),
{
    if bars.len() > 0 {
        let prev = bars.drop_last();
        lemma_merged_no_containment(prev);
        let ks = merged_klines(prev);
        let b = bars.last();
        let res = merged_klines(bars);
        assert(res == merge_step(ks, bars.len() - 1, b));
        if ks.len() > 0 {
            lemma_merge_step_shape(ks, bars.len() - 1, b);
            let last = ks.last();
            let r = rel(last.high, last.low, b.high, b.low);
            lemma_rel_classes(last.high, last.low, b.high, b.low);
            if r.is_contain() {
                if ks.len() >= 2 {
                    let p = ks[ks.len() - 2];
                    lemma_rel_classes(p.high, p.low, last.high, last.low);
                    let m = res.last();
                    lemma_rel_classes(p.high, p.low, m.high, m.low);
                    let k = ks.len() - 2;
                    assert(k + 1 == ks.len() - 1);
                    assert(!rel(ks[k].high, ks[k].low, ks[k + 1].high, ks[k + 1].low).is_contain());
                    assert(!rel(p.high, p.low, m.high, m.low).is_contain());
                }
                assert forall|j: int| 0 <= j < res.len() - 1 implies !(#[trigger] rel(
                    res[j].high,
                    res[j].low,
                    res[j + 1].high,
                    res[j + 1].low,
                )).is_contain() by {
                    if j < ks.len() - 2 {
                        assert(res[j] == ks[j] && res[j + 1] == ks[j + 1]);
                    } else {
                        assert(res[j] == ks[j]);
                    }
                }
            } else {
                assert forall|j: int| 0 <= j < res.len() - 1 implies !(#[trigger] rel(
                    res[j].high,
                    res[j].low,
                    res[j + 1].high,
                    res[j + 1].low,
                )).is_contain() by {
                    if j < ks.len() - 1 {
                        assert(res[j] == ks[j] && res[j + 1] == ks[j + 1]);
                    } else {
                        assert(res[j] == ks[j]);
                    }
                }
            }
        }
    }
}

proof fn lemma_merged_covers(bars: Seq<Bar>)
    requires
        bars.len() <= usize::MAX,
    ensures
        covers_bars(merged_klines(bars), bars.len() as int),
    decreases bars.len(),
{
    if bars.len() > 0 {
        let prev = bars.drop_last();
        lemma_merged_covers(prev);
        let ks = merged_klines(prev);
        let b = bars.last();
        let res = merged_klines(bars);
        assert(res == merge_step(ks, bars.len() - 1, b));
        if ks.len() > 0 {
            lemma_merge_step_shape(ks, bars.len() - 1, b);
            let last = ks.last();
            let r = rel(last.high, last.low, b.high, b.low);
            assert(last.raw_end == bars.len() - 2);
            if r.is_contain() {
                assert forall|i: int| #![trigger res[i]] 0 <= i < res.len() - 1 implies res[i
                    + 1].raw_start == res[i].raw_end + 1 by {
                    assert(res[i] == ks[i]);
                    if i + 1 < ks.len() - 1 {
                        assert(res[i + 1] == ks[i + 1]);
                    }
                }
                assert forall|i: int| #![trigger res[i]] 0 <= i < res.len() implies res[i].raw_start
                    <= res[i].mark_bar <= res[i].raw_end by {
                    if i < ks.len() - 1 {
                        assert(res[i] == ks[i]);
                    }
                }
                if ks.len() > 1 {
                    assert(res[0] == ks[0]);
                }
            } else {
                assert forall|i: int| #![trigger res[i]] 0 <= i < res.len() - 1 implies res[i
                    + 1].raw_start == res[i].raw_end + 1 by {
                    assert(res[i] == ks[i]);
                    if i + 1 < ks.len() {
                        assert(res[i + 1] == ks[i + 1]);
                    }
                }
                assert forall|i: int| #![trigger res[i]] 0 <= i < res.len() implies res[i].raw_start
                    <= res[i].mark_bar <= res[i].raw_end by {
                    if i < ks.len() {
                        assert(res[i] == ks[i]);
                    }
                }
                assert(res[0] == ks[0]);
            }
        }
    }
}

/// Merged K-lines: no neighbouring pair is in containment, and together
/// they cover the raw bars in order.
pub proof fn lemma_merge_no_containment(bars: Seq<Bar>)
    requires
        bars.len() <= usize::MAX,
    ensures
        no_containment(merged_klines(bars)),
        covers_bars(merged_klines(bars), bars.len() as int),
{
    lemma_merged_no_containment(bars);
    lemma_merged_covers(bars);
}

fn triple_kind(l: &ChanK, m: &ChanK, r: &ChanK) -> (res: Option<Kind>)
    ensures
        res == spec_triple_kind(*l, *m, *r),
{
    let lr = rel(l.high, l.low, m.high, m.low);
    let rr = rel(m.high, m.low, r.high, r.low);
    if lr.is_contain() || rr.is_contain() {
        return None;
    }
    match (lr.is_up(), rr.is_up()) {
        (true, true) => Some(Kind::Up),
        (true, false) => Some(Kind::Top),
        (false, true) => Some(Kind::Bottom),
        (false, false) => Some(Kind::Down),
    }
}

/// Interior K-lines are marked top exactly when both their high and low
/// exceed both neighbours', bottom exactly when both are below; a top's
/// value is its high, a bottom's its low.
pub open spec fn fractal_marks_ok(ks: Seq<ChanK>) -> bool {
    forall|j: int|
        1 <= j < ks.len() - 1 ==> {
            &&& (#[trigger] ks[j].kind == Some(Kind::Top) <==> (ks[j - 1].high < ks[j].high && ks[j
                - 1].low < ks[j].low && ks[j].high > ks[j + 1].high && ks[j].low > ks[j + 1].low))
            &&& (ks[j].kind == Some(Kind::Bottom) <==> (ks[j - 1].high > ks[j].high && ks[j - 1].low
                > ks[j].low && ks[j].high < ks[j + 1].high && ks[j].low < ks[j + 1].low))
            &&& (ks[j].kind == Some(Kind::Top) ==> ks[j].feat == ks[j].high)
            &&& (ks[j].kind == Some(Kind::Bottom) ==> ks[j].feat == ks[j].low)
        }
}

/// Every K-line marked top carries its high as its value and every one
/// marked bottom its low; this holds for the provisional mark on the last
/// K-line as well.
pub open spec fn marks_valued(ks: Seq<ChanK>) -> bool {
    forall|j: int|
        0 <= j < ks.len() ==> {
            &&& (#[trigger] ks[j].kind == Some(Kind::Top) ==> ks[j].feat == ks[j].high)
            &&& (ks[j].kind == Some(Kind::Bottom) ==> ks[j].feat == ks[j].low)
        }
}

/// Merging alone marks no K-line top or bottom.
proof fn lemma_merged_unmarked(bars: Seq<Bar>)
    ensures
        forall|j: int|
            0 <= j < merged_klines(bars).len() ==> #[trigger] merged_klines(bars)[j].kind != Some(
                Kind::Top,
            ) && merged_klines(bars)[j].kind != Some(Kind::Bottom),
    decreases bars.len(),
{
    if bars.len() > 0 {
        let prev = bars.drop_last();
        lemma_merged_unmarked(prev);
        let ks = merged_klines(prev);
        let res = merged_klines(bars);
        assert(res == merge_step(ks, bars.len() - 1, bars.last()));
        assert forall|j: int| 0 <= j < res.len() implies #[trigger] res[j].kind != Some(Kind::Top)
            && res[j].kind != Some(Kind::Bottom) by {
            if ks.len() > 0 {
                let last = ks.last();
                assert(last == ks[ks.len() - 1]);
                if j < ks.len() {
                    assert(res[j].kind == ks[j].kind);
                }
            }
        }
    }
}

/// A K-line after the first is marked top only when it lies above the one
/// before it (higher high and higher low), and bottom only when it lies
/// below it; this holds for the provisional mark on the last K-line as well.
pub open spec fn marks_directed(ks: Seq<ChanK>) -> bool {
    forall|j: int|
        1 <= j < ks.len() ==> {
            &&& (#[trigger] ks[j].kind == Some(Kind::Top) ==> ks[j - 1].high < ks[j].high
                && ks[j - 1].low < ks[j].low)
            &&& (ks[j].kind == Some(Kind::Bottom) ==> ks[j - 1].high > ks[j].high && ks[j - 1].low
                > ks[j].low)
        }
}

/// Top and bottom marks, the provisional last one included, carry the
/// K-line's high and low respectively, and sit above (top) or below
/// (bottom) the K-line before them.
pub proof fn lemma_marks_valued(bars: Seq<Bar>)
    requires
        bars.len() <= usize::MAX,
    ensures
        marks_valued(spec_merge_and_mark(bars)),
        marks_directed(spec_merge_and_mark(bars)),
{
    let base = merged_klines(bars);
    lemma_merged_unmarked(bars);
    lemma_merge_no_containment(bars);
    lemma_marked_fractals(base);
    let mk = spec_merge_and_mark(bars);
    assert forall|j: int| 1 <= j < mk.len() implies {
        &&& (#[trigger] mk[j].kind == Some(Kind::Top) ==> mk[j - 1].high < mk[j].high
            && mk[j - 1].low < mk[j].low)
        &&& (mk[j].kind == Some(Kind::Bottom) ==> mk[j - 1].high > mk[j].high && mk[j - 1].low
            > mk[j].low)
    } by {
        assert(mk[j] == mark_at(base, j));
        assert(mk[j - 1].high == base[j - 1].high && mk[j - 1].low == base[j - 1].low);
        assert(mk[j].high == base[j].high && mk[j].low == base[j].low);
        assert(base[j].kind != Some(Kind::Top) && base[j].kind != Some(Kind::Bottom));
        lemma_rel_classes(base[j - 1].high, base[j - 1].low, base[j].high, base[j].low);
        if j >= 2 {
            lemma_rel_classes(base[j - 2].high, base[j - 2].low, base[j - 1].high, base[j - 1].low);
        }
    }
    assert forall|j: int| 0 <= j < mk.len() implies {
        &&& (#[trigger] mk[j].kind == Some(Kind::Top) ==> mk[j].feat == mk[j].high)
        &&& (mk[j].kind == Some(Kind::Bottom) ==> mk[j].feat == mk[j].low)
    } by {
        assert(mk[j] == mark_at(base, j));
        assert(base[j].kind != Some(Kind::Top) && base[j].kind != Some(Kind::Bottom));
    }
}

/// Merged and marked K-lines: no neighbouring pair in containment, the raw
/// bars covered in order, and interior marks exactly the real fractals.
pub proof fn lemma_merge_and_mark(bars: Seq<Bar>)
    requires
        bars.len() <= usize::MAX,
    ensures
        no_containment(spec_merge_and_mark(bars)),
        covers_bars(spec_merge_and_mark(bars), bars.len() as int),
        fractal_marks_ok(spec_merge_and_mark(bars)),
{
    lemma_merge_no_containment(bars);
    let base = merged_klines(bars);
    lemma_marked_fractals(base);
    let mk = marked(base);
    assert forall|j: int| 1 <= j < mk.len() - 1 implies {
        &&& (#[trigger] mk[j].kind == Some(Kind::Top) <==> (mk[j - 1].high < mk[j].high && mk[j
            - 1].low < mk[j].low && mk[j].high > mk[j + 1].high && mk[j].low > mk[j + 1].low))
        &&& (mk[j].kind == Some(Kind::Bottom) <==> (mk[j - 1].high > mk[j].high && mk[j - 1].low
            > mk[j].low && mk[j].high < mk[j + 1].high && mk[j].low < mk[j + 1].low))
        &&& (mk[j].kind == Some(Kind::Top) ==> mk[j].feat == mk[j].high)
        &&& (mk[j].kind == Some(Kind::Bottom) ==> mk[j].feat == mk[j].low)
    } by {
        assert(mk[j - 1].high == base[j - 1].high && mk[j - 1].low == base[j - 1].low);
        assert(mk[j + 1].high == base[j + 1].high && mk[j + 1].low == base[j + 1].low);
        assert(mk[j].high == base[j].high && mk[j].low == base[j].low);
    }
    assert(covers_bars(mk, bars.len() as int)) by {
        if mk.len() > 0 {
            assert(mk[0].raw_start == base[0].raw_start);
            assert(mk[mk.len() - 1].raw_end == base[base.len() - 1].raw_end);
        }
        assert forall|i: int| #![trigger mk[i]] 0 <= i < mk.len() - 1 implies mk[i + 1].raw_start
            == mk[i].raw_end + 1 by {
            assert(mk[i + 1].raw_start == base[i + 1].raw_start);
            assert(mk[i].raw_end == base[i].raw_end);
            assert(base[i + 1].raw_start == base[i].raw_end + 1);
        }
        assert forall|i: int| #![trigger mk[i]] 0 <= i < mk.len() implies mk[i].raw_start
            <= mk[i].mark_bar <= mk[i].raw_end < bars.len() by {
            assert(base[i].raw_start <= base[i].mark_bar <= base[i].raw_end < bars.len());
        }
    }
}

/// State of the marking pass before step `i` (steps `1..i` done).
spec fn marked_upto(ks: Seq<ChanK>, i: int, j: int) -> ChanK {
    if j < i {
        mark_at(ks, j)
    } else if j == i && 2 <= j < ks.len() && spec_triple_kind(ks[j - 2], ks[j - 1], ks[j]) is Some {
        let t = spec_triple_kind(ks[j - 2], ks[j - 1], ks[j]).unwrap();
        ChanK { kind: Some(right_kind(t)), feat: right_feat(t, ks[j]), ..ks[j] }
    } else {
        ks[j]
    }
}

/// K-line merging followed by fractal marking.
///
/// Each bar is merged into the last K-line when one range contains the
/// other, otherwise it starts a new K-line marked `Up`/`Down` by its
/// direction; then every interior K-line gets the kind of its triple and
/// the K-line after it a provisional opposite mark.
pub fn merge_and_mark(bars: &[Bar]) -> (ks: Vec<ChanK>)
    ensures
        ks@ == spec_merge_and_mark(bars@),
        no_containment(ks@),
        covers_bars(ks@, bars@.len() as int),
        fractal_marks_ok(ks@),
        marks_valued(ks@),
        marks_directed(ks@),
{
    let mut ks: Vec<ChanK> = Vec::new();
    let n = bars.len();
    let mut i: usize = 0;
    while i < n
        invariant
            n == bars@.len(),
            i <= n,
            ks@ == merged_klines(bars@.take(i as int)),
        decreases n - i,
    {
        let b = bars[i];
        proof {
            assert(bars@.take(i + 1).drop_last() == bars@.take(i as int));
            assert(bars@.take(i + 1).last() == b);
        }
        if ks.len() == 0 {
            ks.push(
                ChanK {
                    raw_start: i,
                    raw_end: i,
                    mark_bar: i,
                    high: b.high,
                    low: b.low,
                    kind: None,
                    feat: 0,
                },
            );
        } else {
            let last = ks.len() - 1;
            let lk = ks[last];
            let r = rel(lk.high, lk.low, b.high, b.low);
            if r.is_contain() {
                let take_min = ks.len() >= 2 && {
                    let pk = ks[last - 1];
                    rel(pk.high, pk.low, lk.high, lk.low).is_down()
                };
                let (h, l) = if take_min {
                    (
                        if lk.high <= b.high { lk.high } else { b.high },
                        if lk.low <= b.low { lk.low } else { b.low },
                    )
                } else {
                    (
                        if lk.high >= b.high { lk.high } else { b.high },
                        if lk.low >= b.low { lk.low } else { b.low },
                    )
                };
                let mark_bar = if r != Rel::Shun { i } else { lk.mark_bar };
                ks.set(last, ChanK { raw_end: i, mark_bar, high: h, low: l, ..lk });
            } else {
                let kind = if r.is_down() { Kind::Down } else { Kind::Up };
                ks.push(
                    ChanK {
                        raw_start: i,
                        raw_end: i,
                        mark_bar: i,
                        high: b.high,
                        low: b.low,
                        kind: Some(kind),
                        feat: 0,
                    },
                );
            }
        }
        i += 1;
    }
    proof {
        assert(bars@.take(n as int) == bars@);
        lemma_merge_no_containment(bars@);
    }
    let ghost base = ks@;
    let len = ks.len();
    if len >= 3 {
        let mut i: usize = 1;
        while i < len - 1
            invariant
                len == base.len(),
                len >= 3,
                1 <= i <= len - 1,
                ks@.len() == len,
                forall|j: int| 0 <= j < len ==> #[trigger] ks@[j] == marked_upto(base, i as int, j),
            decreases len - 1 - i,
        {
            let l = ks[i - 1];
            let m = ks[i];
            let r = ks[i + 1];
            proof {
                assert(l.high == base[i - 1].high && l.low == base[i - 1].low);
                assert(m.high == base[i as int].high && m.low == base[i as int].low);
                assert(r == base[i + 1]);
            }
            match triple_kind(&l, &m, &r) {
                Some(k) => {
                    let feat = match k {
                        Kind::Top | Kind::Up => m.high,
                        Kind::Bottom | Kind::Down => m.low,
                    };
                    ks.set(i, ChanK { kind: Some(k), feat, ..m });
                    let (rk, rf) = match k {
                        Kind::Bottom | Kind::Up => (Kind::Top, r.high),
                        Kind::Top | Kind::Down => (Kind::Bottom, r.low),
                    };
                    ks.set(i + 1, ChanK { kind: Some(rk), feat: rf, ..r });
                },
                None => {},
            }
            proof {
                assert forall|j: int| 0 <= j < len implies #[trigger] ks@[j] == marked_upto(
                    base,
                    i + 1,
                    j,
                ) by {
                    if j == i as int {
                        assert(mark_at(base, j) == marked_upto(base, i + 1, j));
                    }
                }
            }
            i += 1;
        }
        proof {
            assert(ks@ =~= marked(base));
        }
    } else {
        proof {
            assert(ks@ =~= marked(base));
        }
    }
    proof {
        lemma_merge_and_mark(bars@);
        lemma_marks_valued(bars@);
    }
    ks
}

/// Marking keeps ranges and raw spans; with no containment among the
/// merged K-lines, every interior mark is exactly the kind of its triple.
proof fn lemma_marked_fractals(base: Seq<ChanK>)
    requires
        no_containment(base),
    ensures
        marked(base).len() == base.len(),
        forall|j: int|
            #![trigger marked(base)[j]]
            0 <= j < base.len() ==> marked(base)[j].high == base[j].high && marked(base)[j].low
                == base[j].low && marked(base)[j].raw_start == base[j].raw_start
                && marked(base)[j].raw_end == base[j].raw_end && marked(base)[j].mark_bar
                == base[j].mark_bar,
        no_containment(marked(base)),
        forall|j: int|
            1 <= j < base.len() - 1 ==> {
                &&& (#[trigger] marked(base)[j].kind == Some(Kind::Top) <==> (base[j - 1].high
                    < base[j].high && base[j - 1].low < base[j].low && base[j].high > base[j
                    + 1].high && base[j].low > base[j + 1].low))
                &&& (marked(base)[j].kind == Some(Kind::Bottom) <==> (base[j - 1].high
                    > base[j].high && base[j - 1].low > base[j].low && base[j].high < base[j
                    + 1].high && base[j].low < base[j + 1].low))
                &&& (marked(base)[j].kind == Some(Kind::Top) ==> marked(base)[j].feat
                    == base[j].high)
                &&& (marked(base)[j].kind == Some(Kind::Bottom) ==> marked(base)[j].feat
                    == base[j].low)
            },
{
    let mk = marked(base);
    assert forall|j: int| 0 <= j < base.len() - 1 implies !(#[trigger] rel(
        mk[j].high,
        mk[j].low,
        mk[j + 1].high,
        mk[j + 1].low,
    )).is_contain() by {
        assert(mk[j] == mark_at(base, j));
        assert(mk[j + 1] == mark_at(base, j + 1));
        assert(!rel(base[j].high, base[j].low, base[j + 1].high, base[j + 1].low).is_contain());
    }
    assert forall|j: int| 1 <= j < base.len() - 1 implies {
        &&& (#[trigger] mk[j].kind == Some(Kind::Top) <==> (base[j - 1].high < base[j].high
            && base[j - 1].low < base[j].low && base[j].high > base[j + 1].high && base[j].low
            > base[j + 1].low))
        &&& (mk[j].kind == Some(Kind::Bottom) <==> (base[j - 1].high > base[j].high && base[j
            - 1].low > base[j].low && base[j].high < base[j + 1].high && base[j].low < base[j
            + 1].low))
        &&& (mk[j].kind == Some(Kind::Top) ==> mk[j].feat == base[j].high)
        &&& (mk[j].kind == Some(Kind::Bottom) ==> mk[j].feat == base[j].low)
    } by {
        assert(mk[j] == mark_at(base, j));
        let p = j - 1;
        assert(p + 1 == j);
        assert(!rel(base[p].high, base[p].low, base[p + 1].high, base[p + 1].low).is_contain());
        assert(!rel(base[j - 1].high, base[j - 1].low, base[j].high, base[j].low).is_contain());
        assert(!rel(base[j].high, base[j].low, base[j + 1].high, base[j + 1].low).is_contain());
        lemma_rel_classes(base[j - 1].high, base[j - 1].low, base[j].high, base[j].low);
        lemma_rel_classes(base[j].high, base[j].low, base[j + 1].high, base[j + 1].low);
    }
}

/// A fractal (top or bottom) located at merged K-line `k`.
#[derive(Clone, Copy, Debug, PartialEq, Eq, Structural)]
pub struct Fx {
    /// merged K-line index
    pub k: usize,
    pub top: bool,
    pub feat: i64,
}

/// The fractal marked on K-line `j`, if it is marked top or bottom.
pub open spec fn fx_at(ks: Seq<ChanK>, j: int) -> Option<Fx> {
    match ks[j].kind {
        Some(Kind::Top) => Some(Fx { k: j as usize, top: true, feat: ks[j].feat }),
        Some(Kind::Bottom) => Some(Fx { k: j as usize, top: false, feat: ks[j].feat }),
        _ => None,
    }
}

/// Fractals marked on K-lines `1..m`, in order.
pub open spec fn fractals_upto(ks: Seq<ChanK>, m: int) -> Seq<Fx>
    decreases m,
{
    if m <= 1 {
        Seq::empty()
    } else {
        let s = fractals_upto(ks, m - 1);
        match fx_at(ks, m - 1) {
            Some(f) => s.push(f),
            None => s,
        }
    }
}

/// The result of `collect_fractals`: every K-line after the first that is
/// marked top or bottom (the last one with its provisional mark), in order.
pub open spec fn spec_collect_fractals(ks: Seq<ChanK>) -> Seq<Fx> {
    if ks.len() < 3 {
        Seq::empty()
    } else {
        fractals_upto(ks, ks.len() as int)
    }
}

/// Fractals sorted by strictly increasing K-line index, all within `ks`.
pub open spec fn fxs_sorted(ks: Seq<ChanK>, fxs: Seq<Fx>) -> bool {
    &&& forall|a: int, b: int| 0 <= a < b < fxs.len() ==> #[trigger] fxs[a].k < #[trigger] fxs[b].k
    &&& forall|a: int| 0 <= a < fxs.len() ==> #[trigger] fxs[a].k < ks.len()
}

/// Fractals in non-decreasing K-line order (repeats allowed), all within `ks`.
pub open spec fn fxs_ordered(ks: Seq<ChanK>, fxs: Seq<Fx>) -> bool {
    &&& forall|a: int, b: int| 0 <= a < b < fxs.len() ==> #[trigger] fxs[a].k <= #[trigger] fxs[b].k
    &&& forall|a: int| 0 <= a < fxs.len() ==> #[trigger] fxs[a].k < ks.len()
}

/// Strictly sorted fractals are in non-decreasing order.
pub proof fn lemma_sorted_is_ordered(ks: Seq<ChanK>, fxs: Seq<Fx>)
    requires
        fxs_sorted(ks, fxs),
    ensures
        fxs_ordered(ks, fxs),
{
    assert forall|a: int, b: int| 0 <= a < b < fxs.len() implies #[trigger] fxs[a].k <= #[trigger] fxs[b].k by {
        assert(fxs[a].k < fxs[b].k);
    }
}

proof fn lemma_fractals_upto(ks: Seq<ChanK>, m: int)
    requires
        m <= ks.len() <= usize::MAX,
    ensures
        fxs_sorted(ks, fractals_upto(ks, m)),
        forall|a: int|
            0 <= a < fractals_upto(ks, m).len() ==> 1 <= #[trigger] fractals_upto(ks, m)[a].k < m
                && fx_at(ks, fractals_upto(ks, m)[a].k as int) == Some(fractals_upto(ks, m)[a]),
    decreases m,
{
    if m > 1 {
        lemma_fractals_upto(ks, m - 1);
        let s = fractals_upto(ks, m - 1);
        let r = fractals_upto(ks, m);
        assert forall|a: int| 0 <= a < r.len() implies 1 <= #[trigger] r[a].k < m && fx_at(
            ks,
            r[a].k as int,
        ) == Some(r[a]) by {
            if a < s.len() {
                assert(r[a] == s[a]);
            }
        }
        assert forall|a: int, b: int| 0 <= a < b < r.len() implies #[trigger] r[a].k
            < #[trigger] r[b].k by {
            assert(r[a] == s[a]);
            if b < s.len() {
                assert(r[b] == s[b]);
            }
        }
    }
}

/// Every K-line after the first (the last one included) that is marked top
/// or bottom is collected; with fewer than three K-lines nothing is.
pub open spec fn fractals_complete(ks: Seq<ChanK>, out: Seq<Fx>) -> bool {
    &&& ks.len() < 3 ==> out.len() == 0
    &&& ks.len() >= 3 ==> forall|j: int|
        1 <= j < ks.len() && #[trigger] fx_at(ks, j) is Some ==> out.contains(fx_at(ks, j).unwrap())
}

proof fn lemma_fractals_upto_complete(ks: Seq<ChanK>, m: int)
    requires
        m <= ks.len(),
    ensures
        forall|j: int|
            1 <= j < m && #[trigger] fx_at(ks, j) is Some ==> fractals_upto(ks, m).contains(
                fx_at(ks, j).unwrap(),
            ),
    decreases m,
{
    if m > 1 {
        lemma_fractals_upto_complete(ks, m - 1);
        let s = fractals_upto(ks, m - 1);
        let r = fractals_upto(ks, m);
        assert forall|j: int| 1 <= j < m && #[trigger] fx_at(ks, j) is Some implies r.contains(
            fx_at(ks, j).unwrap(),
        ) by {
            if j < m - 1 {
                let t = choose|t: int| 0 <= t < s.len() && s[t] == fx_at(ks, j).unwrap();
                assert(r[t] == s[t]);
            } else {
                assert(r[r.len() - 1] == fx_at(ks, j).unwrap());
            }
        }
    }
}

/// No marked fractal is left out of the collection.
pub proof fn lemma_collect_fractals_complete(ks: Seq<ChanK>)
    ensures
        fractals_complete(ks, spec_collect_fractals(ks)),
{
    lemma_fractals_upto_complete(ks, ks.len() as int);
}

/// The collected fractals are sorted by K-line and are exactly marked
/// fractals of `ks`.
pub proof fn lemma_collect_fractals(ks: Seq<ChanK>)
    requires
        ks.len() <= usize::MAX,
    ensures
        fxs_sorted(ks, spec_collect_fractals(ks)),
        forall|a: int|
            0 <= a < spec_collect_fractals(ks).len() ==> 1 <= #[trigger] spec_collect_fractals(
                ks,
            )[a].k && fx_at(ks, spec_collect_fractals(ks)[a].k as int) == Some(
                spec_collect_fractals(ks)[a],
            ),
{
    if ks.len() >= 3 {
        lemma_fractals_upto(ks, ks.len() as int);
    }
}

/// Collects the fractals (as the middle of a triple, plus the provisional
/// mark on the last K-line) that strokes are built from.
pub fn collect_fractals(ks: &[ChanK]) -> (out: Vec<Fx>)
    ensures
        out@ == spec_collect_fractals(ks@),
        fxs_sorted(ks@, out@),
        fractals_complete(ks@, out@),
        forall|a: int|
            0 <= a < out@.len() ==> 1 <= #[trigger] out@[a].k && fx_at(ks@, out@[a].k as int)
                == Some(out@[a]),
{
    proof {
        lemma_collect_fractals_complete(ks@);
    }
    let mut out: Vec<Fx> = Vec::new();
    if ks.len() < 3 {
        return out;
    }
    let n = ks.len();
    let mut i: usize = 1;
    while i < n - 1
        invariant
            n == ks@.len(),
            n >= 3,
            1 <= i <= n - 1,
            out@ == fractals_upto(ks@, i as int),
        decreases n - 1 - i,
    {
        match ks[i].kind {
            Some(Kind::Top) => out.push(Fx { k: i, top: true, feat: ks[i].feat }),
            Some(Kind::Bottom) => out.push(Fx { k: i, top: false, feat: ks[i].feat }),
            _ => {},
        }
        i += 1;
    }
    proof {
        lemma_fractals_upto(ks@, (n - 1) as int);
        lemma_fractals_upto(ks@, n as int);
    }
    let last = n - 1;
    let tmp = match ks[last].kind {
        Some(Kind::Top) => Some(Fx { k: last, top: true, feat: ks[last].feat }),
        Some(Kind::Bottom) => Some(Fx { k: last, top: false, feat: ks[last].feat }),
        _ => None,
    };
    if let Some(f) = tmp {
        let dup = out.len() > 0 && out[out.len() - 1].k == f.k;
        if !dup {
            out.push(f);
        }
    }
    out
}

} // verus!
