//! Feature sequences of a segment: the strokes against the segment's
//! direction, merged by containment, scanned for the terminating fractal.

use vstd::prelude::*;
use super::relation::{rel, Rel};
use super::kline::{Kind, max_i64, min_i64};
use super::stroke::Line;

verus! {

/// A feature element: a run of strokes against the segment direction.
#[derive(Clone, Copy, Debug)]
pub struct FeatElem {
    /// first and last member stroke
    pub first_bi: usize,
    pub last_bi: usize,
    pub high: i64,
    pub low: i64,
    /// start value of the member with the highest start (up segments; on a
    /// tie the later member) or the lowest start (down segments; on a tie the
    /// earlier member)
    pub wen_feat: i64,
    pub wen_bi: usize,
}

/// Terminating fractal found in a feature scan: (last stroke of the right
/// element, whether the left and middle elements have a gap, stroke holding
/// the middle element's start value).
pub type Termination = (usize, bool, usize);

/// Result of a feature scan.
pub struct FeatScan {
    pub feats: Vec<FeatElem>,
    pub terminated: Option<Termination>,
}

/// The element made of stroke `bi` alone.
pub open spec fn elem_of(bis: Seq<Line>, dir_up: bool, bi: int) -> FeatElem {
    let b = bis[bi];
    FeatElem {
        first_bi: bi as usize,
        last_bi: bi as usize,
        high: if dir_up { b.wen_feat } else { b.wu_feat },
        low: if dir_up { b.wu_feat } else { b.wen_feat },
        wen_feat: b.wen_feat,
        wen_bi: bi as usize,
    }
}

/// Element `prev` with stroke `bi` merged in: up segments keep the higher
/// high and higher low, down segments the lower ones; the start value moves
/// to `bi` when it is at least as high (up) or strictly lower (down).
pub open spec fn merge_into(bis: Seq<Line>, dir_up: bool, prev: FeatElem, bi: int) -> FeatElem {
    let b = bis[bi];
    let start = b.wen_feat;
    let end = b.wu_feat;
    let newer = if dir_up {
        start >= prev.wen_feat
    } else {
        start < prev.wen_feat
    };
    FeatElem {
        first_bi: prev.first_bi,
        last_bi: bi as usize,
        high: if dir_up { max_i64(prev.high, start) } else { min_i64(prev.high, end) },
        low: if dir_up { max_i64(prev.low, end) } else { min_i64(prev.low, start) },
        wen_feat: if newer { start } else { prev.wen_feat },
        wen_bi: if newer { bi as usize } else { prev.wen_bi },
    }
}

fn elem_from(bis: &[Line], dir_up: bool, bi: usize) -> (e: FeatElem)
    requires
        bi < bis@.len(),
    ensures
        e == elem_of(bis@, dir_up, bi as int),
{
    let b = bis[bi];
    if dir_up {
        FeatElem {
            first_bi: bi,
            last_bi: bi,
            high: b.wen_feat,
            low: b.wu_feat,
            wen_feat: b.wen_feat,
            wen_bi: bi,
        }
    } else {
        FeatElem {
            first_bi: bi,
            last_bi: bi,
            high: b.wu_feat,
            low: b.wen_feat,
            wen_feat: b.wen_feat,
            wen_bi: bi,
        }
    }
}

/// Fractal kind of three feature elements; reverse containment (`Ni`) on
/// one side is read through the other side's direction.
pub open spec fn spec_triple_kind_ranges(l: FeatElem, m: FeatElem, r: FeatElem) -> Option<Kind> {
    let lr = rel(l.high, l.low, m.high, m.low);
    let rr = rel(m.high, m.low, r.high, r.low);
    if lr.is_up() && rr.is_up() {
        Some(Kind::Up)
    } else if lr.is_up() && rr.is_down() {
        Some(Kind::Top)
    } else if lr.is_down() && rr.is_up() {
        Some(Kind::Bottom)
    } else if lr.is_down() && rr.is_down() {
        Some(Kind::Down)
    } else if lr is Ni && rr.is_up() {
        Some(Kind::Bottom)
    } else if lr is Ni && rr.is_down() {
        Some(Kind::Top)
    } else if lr.is_up() && rr is Ni {
        Some(Kind::Up)
    } else if lr.is_down() && rr is Ni {
        Some(Kind::Down)
    } else {
        None
    }
}

fn triple_kind_ranges(l: &FeatElem, m: &FeatElem, r: &FeatElem) -> (k: Option<Kind>)
    ensures
        k == spec_triple_kind_ranges(*l, *m, *r),
{
    let lr = rel(l.high, l.low, m.high, m.low);
    let rr = rel(m.high, m.low, r.high, r.low);
    if lr.is_up() && rr.is_up() {
        Some(Kind::Up)
    } else if lr.is_up() && rr.is_down() {
        Some(Kind::Top)
    } else if lr.is_down() && rr.is_up() {
        Some(Kind::Bottom)
    } else if lr.is_down() && rr.is_down() {
        Some(Kind::Down)
    } else if lr == Rel::Ni && rr.is_up() {
        Some(Kind::Bottom)
    } else if lr == Rel::Ni && rr.is_down() {
        Some(Kind::Top)
    } else if lr.is_up() && rr == Rel::Ni {
        Some(Kind::Up)
    } else if lr.is_down() && rr == Rel::Ni {
        Some(Kind::Down)
    } else {
        None
    }
}

/// Range spanned from the start of stroke `first_bi` to the end of stroke `last_bi`.
pub open spec fn spec_fake_range(bis: Seq<Line>, first_bi: int, last_bi: int) -> (i64, i64) {
    let start = bis[first_bi].wen_feat;
    let end = bis[last_bi].wu_feat;
    (max_i64(start, end), min_i64(start, end))
}

fn fake_range(bis: &[Line], first_bi: usize, last_bi: usize) -> (r: (i64, i64))
    requires
        first_bi < bis@.len(),
        last_bi < bis@.len(),
    ensures
        r == spec_fake_range(bis@, first_bi as int, last_bi as int),
{
    let start = bis[first_bi].wen_feat;
    let end = bis[last_bi].wu_feat;
    (if start >= end { start } else { end }, if start <= end { start } else { end })
}

/// The terminating fractal kind for a segment direction (top for up, bottom for down).
pub open spec fn is_end_kind(dir_up: bool, k: Option<Kind>) -> bool {
    (dir_up && k == Some(Kind::Top)) || (!dir_up && k == Some(Kind::Bottom))
}

/// One stroke of the scan. A stroke in the segment direction may swallow
/// the middle and right elements of a pending terminating fractal that it
/// breaks through (replacing them by one element from the middle's start to
/// the right's end). A stroke against it merges into the last element
/// (`Shun`, `Same`, or `Ni` after a gap) or starts a new one, after which
/// the last three elements are checked for the terminating fractal; the
/// scan stops once one is found.
pub open spec fn scan_step(
    bis: Seq<Line>,
    dir_up: bool,
    merge_ni: bool,
    feats: Seq<FeatElem>,
    term: Option<Termination>,
    bi: int,
) -> (Seq<FeatElem>, Option<Termination>, bool) {
    let b = bis[bi];
    if b.dir_up == dir_up {
        if feats.len() >= 3 {
            let n = feats.len();
            let k = spec_triple_kind_ranges(feats[n - 3], feats[n - 2], feats[n - 1]);
            let hit = (dir_up && k == Some(Kind::Top) && b.high > feats[n - 2].high) || (!dir_up
                && k == Some(Kind::Bottom) && b.low < feats[n - 2].low);
            if hit {
                let mid = feats[n - 2];
                let right = feats[n - 1];
                let fr = spec_fake_range(bis, mid.first_bi as int, right.last_bi as int);
                let nf = feats.drop_last().drop_last().push(
                    FeatElem {
                        first_bi: mid.first_bi,
                        last_bi: right.last_bi,
                        high: fr.0,
                        low: fr.1,
                        wen_feat: fr.0,
                        wen_bi: mid.first_bi,
                    },
                );
                let nt = if term is Some && term.unwrap().0 >= mid.first_bi {
                    None
                } else {
                    term
                };
                (nf, nt, false)
            } else {
                (feats, term, false)
            }
        } else {
            (feats, term, false)
        }
    } else {
        let f1 = if feats.len() == 0 {
            seq![elem_of(bis, dir_up, bi)]
        } else {
            let prev = feats.last();
            let r = rel(prev.high, prev.low, b.high, b.low);
            if r == Rel::Shun || r == Rel::Same || (merge_ni && r == Rel::Ni) {
                feats.update(feats.len() - 1, merge_into(bis, dir_up, prev, bi))
            } else {
                feats.push(elem_of(bis, dir_up, bi))
            }
        };
        let n = f1.len();
        let t1 = if term is None && n >= 3 && is_end_kind(
            dir_up,
            spec_triple_kind_ranges(f1[n - 3], f1[n - 2], f1[n - 1]),
        ) {
            Some(
                (
                    f1[n - 1].last_bi,
                    rel(f1[n - 3].high, f1[n - 3].low, f1[n - 2].high, f1[n - 2].low).is_gap(),
                    f1[n - 2].wen_bi,
                ),
            )
        } else {
            term
        };
        (f1, t1, t1 is Some)
    }
}

pub open spec fn scan_run(
    bis: Seq<Line>,
    view: Seq<usize>,
    dir_up: bool,
    merge_ni: bool,
    idx: int,
    feats: Seq<FeatElem>,
    term: Option<Termination>,
) -> (Seq<FeatElem>, Option<Termination>)
    decreases view.len() - idx,
{
    if idx < 0 || idx >= view.len() {
        (feats, term)
    } else {
        let st = scan_step(bis, dir_up, merge_ni, feats, term, view[idx] as int);
        if st.2 {
            (st.0, st.1)
        } else {
            scan_run(bis, view, dir_up, merge_ni, idx + 1, st.0, st.1)
        }
    }
}

/// The feature scan of the strokes `view` for a segment going `dir_up`;
/// `prev_gap` lets reverse containment merge elements.
pub open spec fn spec_scan(bis: Seq<Line>, view: Seq<usize>, dir_up: bool, prev_gap: bool) -> (Seq<
    FeatElem,
>, Option<Termination>) {
    scan_run(bis, view, dir_up, prev_gap, 0, Seq::empty(), None)
}

/// Every stroke index in `view` is a stroke of `bis`.
pub open spec fn view_ok(bis: Seq<Line>, view: Seq<usize>) -> bool {
    forall|t: int| 0 <= t < view.len() ==> #[trigger] view[t] < bis.len()
}

/// Feature elements only hold strokes against the segment direction.
pub open spec fn elem_ok(bis: Seq<Line>, dir_up: bool, e: FeatElem) -> bool {
    &&& e.first_bi < bis.len() && e.last_bi < bis.len() && e.wen_bi < bis.len()
    &&& bis[e.first_bi as int].dir_up != dir_up
    &&& bis[e.wen_bi as int].dir_up != dir_up
}

pub open spec fn feats_ok(bis: Seq<Line>, dir_up: bool, feats: Seq<FeatElem>) -> bool {
    forall|t: int| 0 <= t < feats.len() ==> elem_ok(bis, dir_up, #[trigger] feats[t])
}

/// A termination points at strokes of `bis`, its middle stroke against the
/// segment direction.
pub open spec fn term_ok(bis: Seq<Line>, dir_up: bool, term: Option<Termination>) -> bool {
    term matches Some(t) ==> t.0 < bis.len() && t.2 < bis.len() && bis[t.2 as int].dir_up != dir_up
}

proof fn lemma_scan_step_ok(
    bis: Seq<Line>,
    dir_up: bool,
    merge_ni: bool,
    feats: Seq<FeatElem>,
    term: Option<Termination>,
    bi: int,
)
    requires
        0 <= bi < bis.len() <= usize::MAX,
        feats_ok(bis, dir_up, feats),
        term_ok(bis, dir_up, term),
    ensures
        feats_ok(bis, dir_up, scan_step(bis, dir_up, merge_ni, feats, term, bi).0),
        term_ok(bis, dir_up, scan_step(bis, dir_up, merge_ni, feats, term, bi).1),
{
    let st = scan_step(bis, dir_up, merge_ni, feats, term, bi);
    let nf = st.0;
    if bis[bi].dir_up == dir_up {
        if feats.len() >= 3 {
            let n = feats.len();
            assert(elem_ok(bis, dir_up, feats[n - 2]));
            assert(elem_ok(bis, dir_up, feats[n - 1]));
            assert forall|t: int| 0 <= t < nf.len() implies elem_ok(bis, dir_up, #[trigger] nf[t]) by {
                if t < n - 2 {
                    assert(nf[t] == feats[t]);
                }
            }
        }
    } else {
        if feats.len() > 0 {
            assert(elem_ok(bis, dir_up, feats.last()));
        }
        assert forall|t: int| 0 <= t < nf.len() implies elem_ok(bis, dir_up, #[trigger] nf[t]) by {
            if t < feats.len() - 1 {
                assert(nf[t] == feats[t]);
            } else if t < feats.len() && nf.len() == feats.len() + 1 {
                assert(nf[t] == feats[t]);
            }
        }
        let n = nf.len();
        if n >= 3 {
            assert(elem_ok(bis, dir_up, nf[n - 1]));
            assert(elem_ok(bis, dir_up, nf[n - 2]));
        }
    }
}

proof fn lemma_scan_run_ok(
    bis: Seq<Line>,
    view: Seq<usize>,
    dir_up: bool,
    merge_ni: bool,
    idx: int,
    feats: Seq<FeatElem>,
    term: Option<Termination>,
)
    requires
        bis.len() <= usize::MAX,
        view_ok(bis, view),
        feats_ok(bis, dir_up, feats),
        term_ok(bis, dir_up, term),
    ensures
        feats_ok(bis, dir_up, scan_run(bis, view, dir_up, merge_ni, idx, feats, term).0),
        term_ok(bis, dir_up, scan_run(bis, view, dir_up, merge_ni, idx, feats, term).1),
    decreases view.len() - idx,
{
    if 0 <= idx < view.len() {
        lemma_scan_step_ok(bis, dir_up, merge_ni, feats, term, view[idx] as int);
        let st = scan_step(bis, dir_up, merge_ni, feats, term, view[idx] as int);
        if !st.2 {
            lemma_scan_run_ok(bis, view, dir_up, merge_ni, idx + 1, st.0, st.1);
        }
    }
}

/// The scan only builds elements from strokes against the segment
/// direction, so a termination's middle stroke goes against it too.
pub proof fn lemma_scan_ok(bis: Seq<Line>, view: Seq<usize>, dir_up: bool, prev_gap: bool)
    requires
        bis.len() <= usize::MAX,
        view_ok(bis, view),
    ensures
        feats_ok(bis, dir_up, spec_scan(bis, view, dir_up, prev_gap).0),
        term_ok(bis, dir_up, spec_scan(bis, view, dir_up, prev_gap).1),
{
    lemma_scan_run_ok(bis, view, dir_up, prev_gap, 0, Seq::empty(), None);
}

/// Feature-sequence scan of the strokes `seg_bis` for a segment going
/// `dir_up`, stopping at the first terminating fractal (a top of the
/// feature elements for an up segment, a bottom for a down segment).
pub fn scan_features(bis: &[Line], seg_bis: &[usize], dir_up: bool, prev_gap: bool) -> (scan: FeatScan)
    requires
        view_ok(bis@, seg_bis@),
    ensures
        (scan.feats@, scan.terminated) == spec_scan(bis@, seg_bis@, dir_up, prev_gap),
        feats_ok(bis@, dir_up, scan.feats@),
        term_ok(bis@, dir_up, scan.terminated),
{
    let nb = bis.len();
    proof {
        lemma_scan_ok(bis@, seg_bis@, dir_up, prev_gap);
    }
    let mut feats: Vec<FeatElem> = Vec::new();
    let mut terminated: Option<Termination> = None;
    let merge_ni = prev_gap;
    let mut idx: usize = 0;
    let mut stop = false;
    while idx < seg_bis.len() && !stop
        invariant
            nb == bis@.len(),
            view_ok(bis@, seg_bis@),
            idx <= seg_bis@.len(),
            feats_ok(bis@, dir_up, feats@),
            term_ok(bis@, dir_up, terminated),
            !stop ==> scan_run(bis@, seg_bis@, dir_up, merge_ni, idx as int, feats@, terminated)
                == spec_scan(bis@, seg_bis@, dir_up, prev_gap),
            stop ==> (feats@, terminated) == spec_scan(bis@, seg_bis@, dir_up, prev_gap),
        decreases seg_bis@.len() - idx, if stop { 0int } else { 1int },
    {
        let bi = seg_bis[idx];
        let ghost st = scan_step(bis@, dir_up, merge_ni, feats@, terminated, bi as int);
        proof {
            lemma_scan_step_ok(bis@, dir_up, merge_ni, feats@, terminated, bi as int);
        }
        let b = bis[bi];
        if b.dir_up == dir_up {
            if feats.len() >= 3 {
                let n = feats.len();
                let k = triple_kind_ranges(&feats[n - 3], &feats[n - 2], &feats[n - 1]);
                let hit = match k {
                    Some(Kind::Top) => dir_up && b.high > feats[n - 2].high,
                    Some(Kind::Bottom) => !dir_up && b.low < feats[n - 2].low,
                    _ => false,
                };
                if hit {
                    let mid = feats[n - 2];
                    let right = feats[n - 1];
                    proof {
                        assert(elem_ok(bis@, dir_up, feats@[n - 2]));
                        assert(elem_ok(bis@, dir_up, feats@[n - 1]));
                    }
                    let (fh, fl) = fake_range(bis, mid.first_bi, right.last_bi);
                    feats.pop();
                    feats.pop();
                    feats.push(
                        FeatElem {
                            first_bi: mid.first_bi,
                            last_bi: right.last_bi,
                            high: fh,
                            low: fl,
                            wen_feat: fh,
                            wen_bi: mid.first_bi,
                        },
                    );
                    match terminated {
                        Some((tbi, _, _)) => {
                            if tbi >= mid.first_bi {
                                terminated = None;
                            }
                        },
                        None => {},
                    }
                    proof {
                        assert(feats@ =~= st.0);
                    }
                }
            }
        } else {
            if feats.len() == 0 {
                feats.push(elem_from(bis, dir_up, bi));
                proof {
                    assert(feats@ =~= st.0);
                }
            } else {
                let last = feats.len() - 1;
                let prev = feats[last];
                let r = rel(prev.high, prev.low, b.high, b.low);
                if r == Rel::Shun || r == Rel::Same || (merge_ni && r == Rel::Ni) {
                    let start_feat = b.wen_feat;
                    let end_feat = b.wu_feat;
                    let newer = if dir_up {
                        start_feat >= prev.wen_feat
                    } else {
                        start_feat < prev.wen_feat
                    };
                    let high = if dir_up {
                        if prev.high >= start_feat {
                            prev.high
                        } else {
                            start_feat
                        }
                    } else {
                        if prev.high <= end_feat {
                            prev.high
                        } else {
                            end_feat
                        }
                    };
                    let low = if dir_up {
                        if prev.low >= end_feat {
                            prev.low
                        } else {
                            end_feat
                        }
                    } else {
                        if prev.low <= start_feat {
                            prev.low
                        } else {
                            start_feat
                        }
                    };
                    feats.set(
                        last,
                        FeatElem {
                            first_bi: prev.first_bi,
                            last_bi: bi,
                            high,
                            low,
                            wen_feat: if newer {
                                start_feat
                            } else {
                                prev.wen_feat
                            },
                            wen_bi: if newer {
                                bi
                            } else {
                                prev.wen_bi
                            },
                        },
                    );
                } else {
                    feats.push(elem_from(bis, dir_up, bi));
                }
                proof {
                    assert(feats@ =~= st.0);
                }
            }
            if terminated.is_none() && feats.len() >= 3 {
                let n = feats.len();
                let k = triple_kind_ranges(&feats[n - 3], &feats[n - 2], &feats[n - 1]);
                let hit = match k {
                    Some(Kind::Top) => dir_up,
                    Some(Kind::Bottom) => !dir_up,
                    _ => false,
                };
                if hit {
                    let gap = rel(feats[n - 3].high, feats[n - 3].low, feats[n - 2].high, feats[n - 2].low).is_gap();
                    terminated = Some((feats[n - 1].last_bi, gap, feats[n - 2].wen_bi));
                }
            }
            if terminated.is_some() {
                stop = true;
            }
        }
        if !stop {
            idx += 1;
        }
    }
    FeatScan { feats, terminated }
}

/// Scan of all strokes as a down segment: (terminating stroke, gap flag,
/// element count), with `usize::MAX` and `false` when nothing terminates.
pub fn dbg_scan(bis: &[Line]) -> (r: (usize, bool, usize))
    ensures
        ({
            let s = spec_scan(bis@, range_seq(0, bis@.len() as int), false, false);
            &&& r.2 == s.0.len()
            &&& (s.1 matches Some(t) ==> r.0 == t.0 && r.1 == t.1)
            &&& (s.1 is None ==> r.0 == usize::MAX && r.1 == false)
        }),
{
    let view = index_range(0, bis.len());
    let scan = scan_features(bis, &view, false, false);
    match scan.terminated {
        Some((end_bi, gap, _)) => (end_bi, gap, scan.feats.len()),
        None => (usize::MAX, false, scan.feats.len()),
    }
}

/// (high, low) of each element of a feature sequence.
pub open spec fn ranges_of(feats: Seq<FeatElem>) -> Seq<(i64, i64)> {
    feats.map_values(|f: FeatElem| (f.high, f.low))
}

fn feat_ranges(feats: &Vec<FeatElem>) -> (r: Vec<(i64, i64)>)
    ensures
        r@ == ranges_of(feats@),
{
    let mut out: Vec<(i64, i64)> = Vec::new();
    let mut i: usize = 0;
    while i < feats.len()
        invariant
            i <= feats@.len(),
            out@ == ranges_of(feats@.take(i as int)),
        decreases feats@.len() - i,
    {
        proof {
            assert(feats@.take(i + 1) == feats@.take(i as int).push(feats@[i as int]));
        }
        out.push((feats[i].high, feats[i].low));
        proof {
            assert(out@ =~= ranges_of(feats@.take(i + 1)));
        }
        i += 1;
    }
    proof {
        assert(feats@.take(feats@.len() as int) == feats@);
    }
    out
}

/// Element ranges of the scan of all strokes as a down segment.
pub fn dbg_scan2(bis: &[Line]) -> (r: Vec<(i64, i64)>)
    ensures
        r@ == ranges_of(spec_scan(bis@, range_seq(0, bis@.len() as int), false, false).0),
{
    let view = index_range(0, bis.len());
    let scan = scan_features(bis, &view, false, false);
    feat_ranges(&scan.feats)
}

/// Scan from the stroke before `from` in direction `dir_up`: (terminating
/// stroke or `usize::MAX`, element count).
pub fn dbg_scan3(bis: &[Line], from: usize, dir_up: bool) -> (r: (usize, usize))
    ensures
        ({
            let lo = if from == 0 { 0 } else { from - 1 };
            let s = spec_scan(bis@, range_seq(lo, bis@.len() as int), dir_up, false);
            &&& r.1 == s.0.len()
            &&& (s.1 matches Some(t) ==> r.0 == t.0)
            &&& (s.1 is None ==> r.0 == usize::MAX)
        }),
{
    let lo = if from == 0 {
        0
    } else {
        from - 1
    };
    let view = index_range(lo, bis.len());
    let scan = scan_features(bis, &view, dir_up, false);
    match scan.terminated {
        Some((e, _, _)) => (e, scan.feats.len()),
        None => (usize::MAX, scan.feats.len()),
    }
}

/// Scan of the strokes `view` in direction `dir_up`: (terminating stroke,
/// element count).
pub fn dbg_scan_view(bis: &[Line], view: &[usize], dir_up: bool) -> (r: (Option<usize>, usize))
    requires
        view_ok(bis@, view@),
    ensures
        ({
            let s = spec_scan(bis@, view@, dir_up, false);
            &&& r.1 == s.0.len()
            &&& (s.1 matches Some(t) ==> r.0 == Some(t.0))
            &&& (s.1 is None ==> r.0 is None)
        }),
{
    let scan = scan_features(bis, view, dir_up, false);
    let term = match scan.terminated {
        Some((e, _, _)) => Some(e),
        None => None,
    };
    (term, scan.feats.len())
}

/// Element ranges of the scan of the strokes `view` in direction `dir_up`.
pub fn dbg_feats(bis: &[Line], view: &[usize], dir_up: bool) -> (r: Vec<(i64, i64)>)
    requires
        view_ok(bis@, view@),
    ensures
        r@ == ranges_of(spec_scan(bis@, view@, dir_up, false).0),
{
    let scan = scan_features(bis, view, dir_up, false);
    feat_ranges(&scan.feats)
}

/// The indices `lo..hi`.
pub open spec fn range_seq(lo: int, hi: int) -> Seq<usize> {
    Seq::new(if hi > lo { (hi - lo) as nat } else { 0 }, |t: int| (lo + t) as usize)
}

/// The indices `lo..hi` as a vector.
pub fn index_range(lo: usize, hi: usize) -> (v: Vec<usize>)
    ensures
        v@ == range_seq(lo as int, hi as int),
{
    let mut v: Vec<usize> = Vec::new();
    let mut k = lo;
    while k < hi
        invariant
            lo <= k <= hi || (k == lo && lo >= hi),
            v@ == range_seq(lo as int, k as int),
        decreases hi - k,
    {
        v.push(k);
        k += 1;
        proof {
            assert(v@ =~= range_seq(lo as int, k as int));
        }
    }
    proof {
        assert(v@ =~= range_seq(lo as int, hi as int));
    }
    v
}

} // verus!
