//! Segments: runs of strokes ended by a terminating fractal of their
//! feature sequence.

use vstd::prelude::*;
use super::relation::rel;
use super::kline::{max_i64, min_i64};
use super::stroke::{Line, lines_below, lines_ordered};
use super::feature::{
    index_range, lemma_scan_ok, range_seq, scan_features, spec_scan, view_ok,
};

verus! {

/// A segment over strokes `start_bi..=end_bi`.
#[derive(Clone, Copy, Debug)]
pub struct Segment {
    pub dir_up: bool,
    /// start and end raw bars (the end is the start of the terminating
    /// fractal's middle element)
    pub wen: usize,
    pub wu: usize,
    pub wen_feat: i64,
    pub wu_feat: i64,
    pub start_bi: usize,
    pub end_bi: usize,
}

/// First three strokes `(i - 1, i, i + 1)`, `i >= from`, in mutual
/// containment whose outer two move in the first stroke's direction;
/// returns the first stroke.
pub open spec fn first_seg_start(bis: Seq<Line>, i: int) -> Option<int>
    decreases bis.len() - i,
{
    if i < 1 || i + 1 >= bis.len() {
        None
    } else {
        let l = bis[i - 1];
        let m = bis[i];
        let r = bis[i + 1];
        let lm = rel(l.high, l.low, m.high, m.low);
        let mr = rel(m.high, m.low, r.high, r.low);
        let lr = rel(l.high, l.low, r.high, r.low);
        if lm.is_contain() && mr.is_contain() && ((l.dir_up && lr.is_up()) || (!l.dir_up
            && lr.is_down())) {
            Some(i - 1)
        } else {
            first_seg_start(bis, i + 1)
        }
    }
}

/// Index of the first stroke in `[a, m]` with the most extreme end value in
/// direction `dir_up`.
pub open spec fn best_end(bis: Seq<Line>, a: int, m: int, dir_up: bool) -> int
    decreases m - a,
{
    if m <= a {
        a
    } else {
        let p = best_end(bis, a, m - 1, dir_up);
        if (dir_up && bis[m].wu_feat > bis[p].wu_feat) || (!dir_up && bis[m].wu_feat
            < bis[p].wu_feat) {
            m
        } else {
            p
        }
    }
}

proof fn lemma_best_end_range(bis: Seq<Line>, a: int, m: int, dir_up: bool)
    requires
        a <= m,
    ensures
        a <= best_end(bis, a, m, dir_up) <= m,
    decreases m - a,
{
    if m > a {
        lemma_best_end_range(bis, a, m - 1, dir_up);
    }
}

fn find_best_end(bis: &[Line], a: usize, dir_up: bool) -> (best: usize)
    requires
        a < bis@.len(),
    ensures
        best == best_end(bis@, a as int, bis@.len() - 1, dir_up),
        a <= best < bis@.len(),
{
    let n = bis.len();
    let mut best = a;
    let mut k = a;
    proof {
        lemma_best_end_range(bis@, a as int, a as int, dir_up);
    }
    while k + 1 < n
        invariant
            n == bis@.len(),
            a <= k < n,
            best == best_end(bis@, a as int, k as int, dir_up),
            a <= best <= k,
        decreases n - k,
    {
        k += 1;
        let v = bis[k].wu_feat;
        let bv = bis[best].wu_feat;
        if (dir_up && v > bv) || (!dir_up && v < bv) {
            best = k;
        }
    }
    best
}

/// Some stroke in `[i, best]` breaks through the previous segment's range
/// against that segment's direction.
pub open spec fn breaks_through(bis: Seq<Line>, prev: Segment, i: int, best: int) -> bool {
    exists|k: int|
        i <= k <= best && #[trigger] breaks_at(bis, prev, k)
}

pub open spec fn breaks_at(bis: Seq<Line>, prev: Segment, k: int) -> bool {
    let prev_high = max_i64(prev.wen_feat, prev.wu_feat);
    let prev_low = min_i64(prev.wen_feat, prev.wu_feat);
    if prev.dir_up {
        !bis[k].dir_up && bis[k].low < prev_low
    } else {
        bis[k].dir_up && bis[k].high > prev_high
    }
}

/// The segment over strokes `s..n` going `dir_up`, ending at the most
/// extreme stroke end.
pub open spec fn open_segment(bis: Seq<Line>, s: int, dir_up: bool) -> Segment {
    let best = best_end(bis, s, bis.len() - 1, dir_up);
    Segment {
        dir_up,
        wen: bis[s].wen,
        wu: bis[best].wu,
        wen_feat: bis[s].wen_feat,
        wu_feat: bis[best].wu_feat,
        start_bi: s as usize,
        end_bi: (bis.len() - 1) as usize,
    }
}

/// The last, unterminated segment starting at stroke `i`. When the previous
/// segment came out of a gap and a stroke of this one breaks through the
/// previous segment's range, and rescanning the previous segment finds no
/// later termination, this one is folded into the previous segment, which
/// then runs to the end.
pub open spec fn tail_segments(
    bis: Seq<Line>,
    i: int,
    dir_up: bool,
    prev_gap: bool,
    segs: Seq<Segment>,
) -> Seq<Segment> {
    let n = bis.len();
    let best = best_end(bis, i, n - 1, dir_up);
    let normal = segs.push(open_segment(bis, i, dir_up));
    if segs.len() >= 2 && prev_gap {
        let prev = segs.last();
        if breaks_through(bis, prev, i, best) {
            let chk = spec_scan(bis, range_seq(prev.start_bi as int, n as int), prev.dir_up, false).1;
            let still_valid = chk is Some && chk.unwrap().0 > prev.end_bi && chk.unwrap().0 < n
                - 1;
            if !still_valid {
                segs.drop_last().push(open_segment(bis, prev.start_bi as int, prev.dir_up))
            } else {
                normal
            }
        } else {
            normal
        }
    } else {
        normal
    }
}

/// The segment starting at stroke `i` ends where the scan of the strokes
/// from `feat_from` finds a terminating fractal strictly inside the stroke
/// sequence, and the next segment starts at that fractal's middle stroke;
/// otherwise the segment from `i` is the last one.
pub open spec fn seg_run(
    bis: Seq<Line>,
    i: int,
    feat_from: int,
    prev_gap: bool,
    segs: Seq<Segment>,
) -> Seq<Segment>
    decreases bis.len() - i,
{
    let n = bis.len();
    if i < 0 || i >= n {
        segs
    } else {
        let dir_up = bis[i].dir_up;
        let t = spec_scan(bis, range_seq(feat_from, n as int), dir_up, prev_gap).1;
        if t is Some && t.unwrap().0 > i && t.unwrap().0 < n - 1 && t.unwrap().2 > i {
            let end_bi = t.unwrap().0 as int;
            let mid = t.unwrap().2 as int;
            let seg = Segment {
                dir_up,
                wen: bis[i].wen,
                wu: bis[mid].wen,
                wen_feat: bis[i].wen_feat,
                wu_feat: bis[mid].wen_feat,
                start_bi: i as usize,
                end_bi: end_bi as usize,
            };
            let next_gap = if prev_gap {
                false
            } else {
                t.unwrap().1
            };
            if mid >= n {
                segs.push(seg)
            } else {
                seg_run(bis, mid, i, next_gap, segs.push(seg))
            }
        } else {
            tail_segments(bis, i, dir_up, prev_gap, segs)
        }
    }
}

/// The result of `build_segments`.
pub open spec fn spec_build_segments(bis: Seq<Line>) -> Seq<Segment> {
    if bis.len() < 3 {
        Seq::empty()
    } else {
        match first_seg_start(bis, 1) {
            None => Seq::empty(),
            Some(s) => seg_run(bis, s, s, false, Seq::empty()),
        }
    }
}

/// Segment `s` starts at its first stroke and goes that stroke's way.
pub open spec fn seg_anchored(bis: Seq<Line>, s: Segment) -> bool {
    &&& s.start_bi <= s.end_bi < bis.len()
    &&& s.dir_up == bis[s.start_bi as int].dir_up
    &&& s.wen == bis[s.start_bi as int].wen
    &&& s.wen_feat == bis[s.start_bi as int].wen_feat
}

/// Segments alternate in direction, each starting where the previous one
/// ends, with strictly increasing first strokes; each is anchored at its
/// first stroke.
pub open spec fn segments_chain(bis: Seq<Line>, segs: Seq<Segment>) -> bool {
    &&& forall|k: int| 0 <= k < segs.len() ==> seg_anchored(bis, #[trigger] segs[k])
    &&& forall|k: int|
        0 <= k < segs.len() - 1 ==> {
            &&& #[trigger] segs[k].dir_up != segs[k + 1].dir_up
            &&& segs[k].wu == segs[k + 1].wen
            &&& segs[k].wu_feat == segs[k + 1].wen_feat
            &&& segs[k].start_bi < segs[k + 1].start_bi
        }
}

/// On time-ordered strokes every segment ends after it starts.
pub open spec fn segments_forward(segs: Seq<Segment>) -> bool {
    forall|k: int| 0 <= k < segs.len() ==> #[trigger] segs[k].wen < segs[k].wu
}

/// Every segment's endpoints are raw bars below `nb`.
pub open spec fn segs_below(segs: Seq<Segment>, nb: int) -> bool {
    forall|k: int| #![trigger segs[k]] 0 <= k < segs.len() ==> segs[k].wen < nb && segs[k].wu < nb
}

/// Every segment but the last is closed by a terminating stroke that comes
/// before the last stroke: a termination completed only by the last stroke
/// closes nothing.
pub open spec fn segments_closed_early(bis: Seq<Line>, segs: Seq<Segment>) -> bool {
    forall|k: int| 0 <= k < segs.len() - 1 ==> #[trigger] segs[k].end_bi < bis.len() - 1
}

/// Invariant of the segment loop before the segment starting at `i`.
pub open spec fn seg_state_ok(bis: Seq<Line>, i: int, segs: Seq<Segment>) -> bool {
    &&& bis.len() <= usize::MAX
    &&& 0 <= i < bis.len()
    &&& segments_chain(bis, segs)
    &&& forall|k: int| 0 <= k < segs.len() ==> #[trigger] segs[k].end_bi < bis.len() - 1
    &&& (lines_ordered(bis) ==> segments_forward(segs))
    &&& segs.len() > 0 ==> {
        &&& segs.last().wu == bis[i].wen
        &&& segs.last().wu_feat == bis[i].wen_feat
        &&& segs.last().dir_up != bis[i].dir_up
        &&& segs.last().start_bi < i
    }
}

/// On time-ordered lines, start bars strictly increase and every line ends
/// after any earlier line starts.
proof fn lemma_ordered_mono(bis: Seq<Line>, a: int, b: int)
    requires
        lines_ordered(bis),
        0 <= a <= b < bis.len(),
    ensures
        bis[a].wen < bis[b].wu,
        a < b ==> bis[a].wen < bis[b].wen,
    decreases b - a,
{
    if a < b {
        lemma_ordered_mono(bis, a, b - 1);
        assert(bis[b - 1].wu <= bis[b].wen);
        assert(bis[b].wen < bis[b].wu);
    }
}

proof fn lemma_push_chain(bis: Seq<Line>, segs: Seq<Segment>, seg: Segment)
    requires
        segments_chain(bis, segs),
        seg_anchored(bis, seg),
        segs.len() > 0 ==> {
            &&& segs.last().wu == seg.wen
            &&& segs.last().wu_feat == seg.wen_feat
            &&& segs.last().dir_up != seg.dir_up
            &&& segs.last().start_bi < seg.start_bi
        },
    ensures
        segments_chain(bis, segs.push(seg)),
        segments_forward(segs) && seg.wen < seg.wu ==> segments_forward(segs.push(seg)),
        forall|nb: int|
            segs_below(segs, nb) && seg.wen < nb && seg.wu < nb ==> #[trigger] segs_below(
                segs.push(seg),
                nb,
            ),
{
    let r = segs.push(seg);
    assert forall|nb: int| segs_below(segs, nb) && seg.wen < nb && seg.wu < nb implies #[trigger] segs_below(
        r,
        nb,
    ) by {
        assert forall|k: int| 0 <= k < r.len() implies r[k].wen < nb && r[k].wu < nb by {
            if k < segs.len() {
                assert(r[k] == segs[k]);
            }
        }
    }
    assert forall|k: int| 0 <= k < r.len() implies seg_anchored(bis, #[trigger] r[k]) by {
        if k < segs.len() {
            assert(r[k] == segs[k]);
        }
    }
    assert forall|k: int| 0 <= k < r.len() - 1 implies {
        &&& #[trigger] r[k].dir_up != r[k + 1].dir_up
        &&& r[k].wu == r[k + 1].wen
        &&& r[k].wu_feat == r[k + 1].wen_feat
        &&& r[k].start_bi < r[k + 1].start_bi
    } by {
        assert(r[k] == segs[k]);
        if k + 1 < segs.len() {
            assert(r[k + 1] == segs[k + 1]);
        }
    }
    if segments_forward(segs) && seg.wen < seg.wu {
        assert forall|k: int| 0 <= k < r.len() implies #[trigger] r[k].wen < r[k].wu by {
            if k < segs.len() {
                assert(r[k] == segs[k]);
            }
        }
    }
}

proof fn lemma_tail_ok(
    bis: Seq<Line>,
    i: int,
    dir_up: bool,
    prev_gap: bool,
    segs: Seq<Segment>,
    nb: int,
)
    requires
        seg_state_ok(bis, i, segs),
        dir_up == bis[i].dir_up,
        lines_below(bis, nb) ==> segs_below(segs, nb),
    ensures
        lines_below(bis, nb) ==> segs_below(tail_segments(bis, i, dir_up, prev_gap, segs), nb),
        segments_chain(bis, tail_segments(bis, i, dir_up, prev_gap, segs)),
        lines_ordered(bis) ==> segments_forward(tail_segments(bis, i, dir_up, prev_gap, segs)),
        tail_segments(bis, i, dir_up, prev_gap, segs).len() > 0,
        tail_segments(bis, i, dir_up, prev_gap, segs).last().end_bi == bis.len() - 1,
        segments_closed_early(bis, tail_segments(bis, i, dir_up, prev_gap, segs)),
{
    let n = bis.len();
    let best = best_end(bis, i, n - 1, dir_up);
    lemma_best_end_range(bis, i, n - 1, dir_up);
    let seg = open_segment(bis, i, dir_up);
    if lines_ordered(bis) {
        lemma_ordered_mono(bis, i, best);
    }
    if lines_below(bis, nb) {
        assert(bis[best].wu < nb && bis[i].wen < nb);
    }
    lemma_push_chain(bis, segs, seg);
    if segs.len() >= 2 && prev_gap {
        let prev = segs.last();
        let base = segs.drop_last();
        let ps = prev.start_bi as int;
        assert(seg_anchored(bis, segs[segs.len() - 1]));
        let merged = open_segment(bis, ps, prev.dir_up);
        lemma_best_end_range(bis, ps, n - 1, prev.dir_up);
        if lines_ordered(bis) {
            lemma_ordered_mono(bis, ps, best_end(bis, ps, n - 1, prev.dir_up));
        }
        assert(segments_chain(bis, base)) by {
            assert forall|k: int| 0 <= k < base.len() implies seg_anchored(bis, #[trigger] base[k]) by {
                assert(base[k] == segs[k]);
            }
            assert forall|k: int| 0 <= k < base.len() - 1 implies {
                &&& #[trigger] base[k].dir_up != base[k + 1].dir_up
                &&& base[k].wu == base[k + 1].wen
                &&& base[k].wu_feat == base[k + 1].wen_feat
                &&& base[k].start_bi < base[k + 1].start_bi
            } by {
                assert(base[k] == segs[k] && base[k + 1] == segs[k + 1]);
            }
        }
        let q = segs.len() - 2;
        assert(base.last() == segs[q]);
        assert(segs[q].wu == segs[q + 1].wen);
        if lines_ordered(bis) {
            assert forall|k: int| 0 <= k < base.len() implies #[trigger] base[k].wen < base[k].wu by {
                assert(base[k] == segs[k]);
            }
        }
        if lines_below(bis, nb) {
            assert forall|k: int| 0 <= k < base.len() implies base[k].wen < nb && base[k].wu < nb by {
                assert(base[k] == segs[k]);
            }
            assert(segs_below(base, nb));
            assert(bis[best_end(bis, ps, n - 1, prev.dir_up)].wu < nb);
            assert(bis[ps].wen < nb);
        }
        lemma_push_chain(bis, base, merged);
    }
}

proof fn lemma_seg_run_ok(
    bis: Seq<Line>,
    i: int,
    feat_from: int,
    prev_gap: bool,
    segs: Seq<Segment>,
    nb: int,
)
    requires
        seg_state_ok(bis, i, segs),
        0 <= feat_from,
        lines_below(bis, nb) ==> segs_below(segs, nb),
    ensures
        lines_below(bis, nb) ==> segs_below(seg_run(bis, i, feat_from, prev_gap, segs), nb),
        segments_chain(bis, seg_run(bis, i, feat_from, prev_gap, segs)),
        lines_ordered(bis) ==> segments_forward(seg_run(bis, i, feat_from, prev_gap, segs)),
        seg_run(bis, i, feat_from, prev_gap, segs).len() > 0,
        seg_run(bis, i, feat_from, prev_gap, segs).last().end_bi == bis.len() - 1,
        segments_closed_early(bis, seg_run(bis, i, feat_from, prev_gap, segs)),
    decreases bis.len() - i,
{
    let n = bis.len();
    let dir_up = bis[i].dir_up;
    let view = range_seq(feat_from, n as int);
    assert(view_ok(bis, view));
    lemma_scan_ok(bis, view, dir_up, prev_gap);
    let t = spec_scan(bis, view, dir_up, prev_gap).1;
    if t is Some && t.unwrap().0 > i && t.unwrap().0 < n - 1 && t.unwrap().2 > i {
        let end_bi = t.unwrap().0 as int;
        let mid = t.unwrap().2 as int;
        let seg = Segment {
            dir_up,
            wen: bis[i].wen,
            wu: bis[mid].wen,
            wen_feat: bis[i].wen_feat,
            wu_feat: bis[mid].wen_feat,
            start_bi: i as usize,
            end_bi: end_bi as usize,
        };
        if lines_ordered(bis) {
            lemma_ordered_mono(bis, i, mid);
        }
        if lines_below(bis, nb) {
            assert(bis[mid].wen < nb && bis[i].wen < nb);
        }
        lemma_push_chain(bis, segs, seg);
        assert forall|k: int| 0 <= k < segs.push(seg).len() implies #[trigger] segs.push(seg)[k].end_bi
            < bis.len() - 1 by {
            if k < segs.len() {
                assert(segs.push(seg)[k] == segs[k]);
            }
        }
        let next_gap = if prev_gap {
            false
        } else {
            t.unwrap().1
        };
        lemma_seg_run_ok(bis, mid, i, next_gap, segs.push(seg), nb);
    } else {
        lemma_tail_ok(bis, i, dir_up, prev_gap, segs, nb);
    }
}

/// Segments found: they chain (alternating directions, each starting where
/// the previous ends), and the last one runs to the last stroke.
pub proof fn lemma_segments_ok(bis: Seq<Line>, nb: int)
    requires
        bis.len() <= usize::MAX,
    ensures
        lines_below(bis, nb) ==> segs_below(spec_build_segments(bis), nb),
        segments_chain(bis, spec_build_segments(bis)),
        lines_ordered(bis) ==> segments_forward(spec_build_segments(bis)),
        spec_build_segments(bis).len() > 0 ==> spec_build_segments(bis).last().end_bi == bis.len()
            - 1,
        segments_closed_early(bis, spec_build_segments(bis)),
{
    if bis.len() >= 3 {
        lemma_first_seg_start(bis, 1);
        if let Some(s) = first_seg_start(bis, 1) {
            lemma_seg_run_ok(bis, s, s, false, Seq::empty(), nb);
        }
    }
}

proof fn lemma_first_seg_start(bis: Seq<Line>, i: int)
    requires
        i >= 1,
    ensures
        first_seg_start(bis, i) matches Some(s) ==> 0 <= s && s + 2 < bis.len(),
    decreases bis.len() - i,
{
    if i + 1 < bis.len() {
        lemma_first_seg_start(bis, i + 1);
    }
}

/// Segments of a stroke sequence: the first starts at the first three
/// strokes in mutual containment whose outer two move the first stroke's
/// way; each segment ends at the terminating fractal of its feature
/// sequence and the next one starts at that fractal's middle.
pub fn build_segments(bis: &[Line]) -> (segs: Vec<Segment>)
    ensures
        segs@ == spec_build_segments(bis@),
        segments_chain(bis@, segs@),
        lines_ordered(bis@) ==> segments_forward(segs@),
        segs@.len() > 0 ==> segs@.last().end_bi == bis@.len() - 1,
        segments_closed_early(bis@, segs@),
        forall|nb: int| #[trigger] lines_below(bis@, nb) ==> segs_below(segs@, nb),
{
    let n = bis.len();
    proof {
        lemma_segments_ok(bis@, 0);
        assert forall|nb: int| #[trigger] lines_below(bis@, nb) implies segs_below(
            spec_build_segments(bis@),
            nb,
        ) by {
            lemma_segments_ok(bis@, nb);
        }
    }
    let mut segs: Vec<Segment> = Vec::new();
    if n < 3 {
        return segs;
    }
    let mut start: Option<usize> = None;
    let mut i: usize = 1;
    while i + 1 < n && start.is_none()
        invariant
            n == bis@.len(),
            n >= 3,
            1 <= i < n,
            start is None ==> first_seg_start(bis@, 1) == first_seg_start(bis@, i as int),
            start matches Some(x) ==> first_seg_start(bis@, 1) == Some(x as int),
        decreases n - i, if start is None { 1int } else { 0int },
    {
        let l = bis[i - 1];
        let m = bis[i];
        let r = bis[i + 1];
        let lm = rel(l.high, l.low, m.high, m.low);
        let mr = rel(m.high, m.low, r.high, r.low);
        let mut ok = false;
        if lm.is_contain() && mr.is_contain() {
            let lr = rel(l.high, l.low, r.high, r.low);
            ok = (l.dir_up && lr.is_up()) || (!l.dir_up && lr.is_down());
        }
        if ok {
            start = Some(i - 1);
        } else {
            i += 1;
        }
    }
    let start = match start {
        Some(s) => s,
        None => {
            proof {
                assert(first_seg_start(bis@, i as int) == None::<int>);
            }
            return segs;
        },
    };
    proof {
        lemma_first_seg_start(bis@, 1);
    }
    let mut i = start;
    let mut feat_from = start;
    let mut prev_gap = false;
    let mut loop_guard: usize = 0;
    let mut done = false;
    let ghost fin = spec_build_segments(bis@);
    while i < n && !done
        invariant
            n == bis@.len(),
            i < n,
            feat_from <= i,
            !done ==> loop_guard <= i,
            !done ==> seg_state_ok(bis@, i as int, segs@),
            !done ==> seg_run(bis@, i as int, feat_from as int, prev_gap, segs@) == fin,
            done ==> segs@ == fin,
        decreases n - i, if done { 0int } else { 1int },
    {
        loop_guard += 1;
        if loop_guard > 4 && loop_guard - 4 > n {
            done = true;
            proof {
                assert(false);
            }
        } else {
            let dir_up = bis[i].dir_up;
            let view = index_range(feat_from, n);
            proof {
                assert(view_ok(bis@, view@));
                lemma_scan_ok(bis@, view@, dir_up, prev_gap);
            }
            let scan = scan_features(bis, &view, dir_up, prev_gap);
            let mut advanced = false;
            match scan.terminated {
                Some((end_bi, gap, mid_wen)) => {
                    if end_bi > i && end_bi < n - 1 && mid_wen > i {
                        let seg = Segment {
                            dir_up,
                            wen: bis[i].wen,
                            wu: bis[mid_wen].wen,
                            wen_feat: bis[i].wen_feat,
                            wu_feat: bis[mid_wen].wen_feat,
                            start_bi: i,
                            end_bi,
                        };
                        proof {
                            if lines_ordered(bis@) {
                                lemma_ordered_mono(bis@, i as int, mid_wen as int);
                            }
                            lemma_push_chain(bis@, segs@, seg);
                        }
                        segs.push(seg);
                        prev_gap = if prev_gap {
                            false
                        } else {
                            gap
                        };
                        feat_from = i;
                        i = mid_wen;
                        advanced = true;
                    }
                },
                None => {},
            }
            if !advanced {
                segs = tail(bis, i, dir_up, prev_gap, segs);
                done = true;
            }
        }
    }
    segs
}

/// The last segment (see `tail_segments`).
fn tail(bis: &[Line], i: usize, dir_up: bool, prev_gap: bool, segs: Vec<Segment>) -> (out: Vec<
    Segment,
>)
    requires
        seg_state_ok(bis@, i as int, segs@),
        dir_up == bis@[i as int].dir_up,
    ensures
        out@ == tail_segments(bis@, i as int, dir_up, prev_gap, segs@),
{
    let mut segs = segs;
    let n = bis.len();
    let best = find_best_end(bis, i, dir_up);
    let mut merged_ok = false;
    if segs.len() >= 2 && prev_gap {
        let prev = segs[segs.len() - 1];
        proof {
            assert(seg_anchored(bis@, segs@[segs@.len() - 1]));
        }
        let prev_high = if prev.wen_feat >= prev.wu_feat {
            prev.wen_feat
        } else {
            prev.wu_feat
        };
        let prev_low = if prev.wen_feat <= prev.wu_feat {
            prev.wen_feat
        } else {
            prev.wu_feat
        };
        let mut breakthrough = false;
        let mut k = i;
        while k <= best && !breakthrough
            invariant
                i <= k <= best + 1,
                best < bis@.len(),
                prev == segs@.last(),
                prev_high == max_i64(prev.wen_feat, prev.wu_feat),
                prev_low == min_i64(prev.wen_feat, prev.wu_feat),
                breakthrough ==> breaks_through(bis@, prev, i as int, best as int),
                !breakthrough ==> forall|q: int| i <= q < k ==> !#[trigger] breaks_at(bis@, prev, q),
            decreases best + 1 - k, if breakthrough { 0int } else { 1int },
        {
            let l = bis[k];
            let b = if prev.dir_up {
                !l.dir_up && l.low < prev_low
            } else {
                l.dir_up && l.high > prev_high
            };
            if b {
                breakthrough = true;
                proof {
                    assert(breaks_at(bis@, prev, k as int));
                }
            } else {
                k += 1;
            }
        }
        if breakthrough {
            let view_chk = index_range(prev.start_bi, n);
            proof {
                assert(view_ok(bis@, view_chk@));
            }
            let chk = scan_features(bis, &view_chk, prev.dir_up, false);
            let prev_still_valid = match chk.terminated {
                Some((chk_end, _, _)) => chk_end > prev.end_bi && chk_end < n - 1,
                None => false,
            };
            if !prev_still_valid {
                segs.pop();
                let new_start = prev.start_bi;
                let new_dir = prev.dir_up;
                let bk = find_best_end(bis, new_start, new_dir);
                segs.push(
                    Segment {
                        dir_up: new_dir,
                        wen: bis[new_start].wen,
                        wu: bis[bk].wu,
                        wen_feat: bis[new_start].wen_feat,
                        wu_feat: bis[bk].wu_feat,
                        start_bi: new_start,
                        end_bi: n - 1,
                    },
                );
                merged_ok = true;
            }
        }
    }
    if !merged_ok {
        segs.push(
            Segment {
                dir_up,
                wen: bis[i].wen,
                wu: bis[best].wu,
                wen_feat: bis[i].wen_feat,
                wu_feat: bis[best].wu_feat,
                start_bi: i,
                end_bi: n - 1,
            },
        );
    }
    segs
}

} // verus!
