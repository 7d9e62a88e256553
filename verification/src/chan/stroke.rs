//! Strokes: alternating top/bottom fractal endpoints, and the lines between them.

use vstd::prelude::*;
use super::relation::rel;
use super::kline::{ChanK, Fx, covers_bars, fxs_ordered, max_i64, min_i64};

verus! {

/// Minimal number of merged K-lines a stroke spans (both ends included).
pub const MIN_K: usize = 5;

/// Upper bound on the steps of the stroke search.
pub const STROKE_GUARD: usize = 2000000;

/// K-line `i` is strictly more extreme than K-line `best` (higher high for
/// tops, lower low for bottoms).
pub open spec fn better(ks: Seq<ChanK>, i: int, best: int, top: bool) -> bool {
    if top {
        ks[i].high > ks[best].high
    } else {
        ks[i].low < ks[best].low
    }
}

/// Index of the first most extreme K-line in `[a, m]`.
pub open spec fn extreme_upto(ks: Seq<ChanK>, a: int, m: int, top: bool) -> int
    decreases m - a,
{
    if m <= a {
        a
    } else {
        let p = extreme_upto(ks, a, m - 1, top);
        if better(ks, m, p, top) {
            m
        } else {
            p
        }
    }
}

proof fn lemma_extreme_range(ks: Seq<ChanK>, a: int, m: int, top: bool)
    requires
        a <= m,
    ensures
        a <= extreme_upto(ks, a, m, top) <= m,
    decreases m - a,
{
    if m > a {
        lemma_extreme_range(ks, a, m - 1, top);
    }
}

/// The first most extreme K-line of `[a, m]` beats every K-line before it
/// and is beaten by none.
proof fn lemma_extreme_first(ks: Seq<ChanK>, a: int, m: int, top: bool)
    requires
        a <= m,
    ensures
        forall|j: int| a <= j < extreme_upto(ks, a, m, top) ==> #[trigger] better(ks, extreme_upto(ks, a, m, top), j, top),
        forall|j: int| a <= j <= m ==> !#[trigger] better(ks, j, extreme_upto(ks, a, m, top), top),
    decreases m - a,
{
    if m > a {
        lemma_extreme_first(ks, a, m - 1, top);
        let q = extreme_upto(ks, a, m - 1, top);
        let p = extreme_upto(ks, a, m, top);
        assert forall|j: int| a <= j < p implies #[trigger] better(ks, p, j, top) by {
            if p == m {
                if j < q {
                    assert(better(ks, q, j, top));
                } else {
                    assert(!better(ks, j, q, top));
                }
            } else {
                assert(better(ks, q, j, top));
            }
        }
        assert forall|j: int| a <= j <= m implies !#[trigger] better(ks, j, p, top) by {
            if j < m {
                assert(!better(ks, j, q, top));
            }
        }
    }
}

/// The first K-line in `[a, b]` with the highest high (`top`) or the
/// lowest low (otherwise).
fn extreme_k(ks: &[ChanK], a: usize, b: usize, top: bool) -> (best: usize)
    requires
        a <= b < ks@.len(),
    ensures
        best == extreme_upto(ks@, a as int, b as int, top),
        a <= best <= b,
{
    let mut best = a;
    let mut i = a;
    while i < b
        invariant
            a <= i <= b < ks@.len(),
            best == extreme_upto(ks@, a as int, i as int, top),
            a <= best <= i,
        decreases b - i,
    {
        i += 1;
        let better = if top {
            ks[i].high > ks[best].high
        } else {
            ks[i].low < ks[best].low
        };
        if better {
            best = i;
        }
    }
    best
}

/// Index of the first fractal at K-line `k`, searching from `idx`.
pub open spec fn find_k_from(fxs: Seq<Fx>, k: int, idx: int) -> Option<int>
    decreases fxs.len() - idx,
{
    if idx >= fxs.len() || idx < 0 {
        None
    } else if fxs[idx].k == k {
        Some(idx)
    } else {
        find_k_from(fxs, k, idx + 1)
    }
}

/// Index of the first fractal at or after K-line `w`, searching from
/// `idx`; the length when there is none.
pub open spec fn lower_bound_from(fxs: Seq<Fx>, w: int, idx: int) -> int
    decreases fxs.len() - idx,
{
    if idx >= fxs.len() || idx < 0 {
        fxs.len() as int
    } else if fxs[idx].k >= w {
        idx
    } else {
        lower_bound_from(fxs, w, idx + 1)
    }
}

proof fn lemma_find_k(fxs: Seq<Fx>, k: int, idx: int)
    requires
        0 <= idx,
    ensures
        find_k_from(fxs, k, idx) matches Some(j) ==> idx <= j < fxs.len() && fxs[j].k == k,
    decreases fxs.len() - idx,
{
    if idx < fxs.len() && fxs[idx].k != k {
        lemma_find_k(fxs, k, idx + 1);
    }
}

proof fn lemma_lower_bound(fxs: Seq<Fx>, w: int, idx: int)
    requires
        0 <= idx,
    ensures
        idx <= lower_bound_from(fxs, w, idx) <= fxs.len() || (idx > fxs.len()
            && lower_bound_from(fxs, w, idx) == fxs.len()),
        lower_bound_from(fxs, w, idx) < fxs.len() ==> fxs[lower_bound_from(fxs, w, idx)].k >= w,
    decreases fxs.len() - idx,
{
    if idx < fxs.len() && fxs[idx].k < w {
        lemma_lower_bound(fxs, w, idx + 1);
    }
}

fn position_of_k(fxs: &[Fx], k: usize) -> (r: Option<usize>)
    ensures
        r == (match find_k_from(fxs@, k as int, 0) {
            Some(j) => Some(j as usize),
            None => None::<usize>,
        }),
{
    let mut i: usize = 0;
    while i < fxs.len()
        invariant
            i <= fxs@.len(),
            find_k_from(fxs@, k as int, 0) == find_k_from(fxs@, k as int, i as int),
        decreases fxs@.len() - i,
    {
        if fxs[i].k == k {
            return Some(i);
        }
        i += 1;
    }
    None
}

/// First fractal index whose K-line is at least `w`.
fn first_from(fxs: &[Fx], w: usize) -> (r: usize)
    ensures
        r == lower_bound_from(fxs@, w as int, 0),
{
    let mut i: usize = 0;
    while i < fxs.len()
        invariant
            i <= fxs@.len(),
            lower_bound_from(fxs@, w as int, 0) == lower_bound_from(fxs@, w as int, i as int),
        decreases fxs@.len() - i,
    {
        if fxs[i].k >= w {
            return i;
        }
        i += 1;
    }
    i
}

/// First fractal index whose K-line is at least `k + 2` (the middle of the
/// fractal to the right of K-line `k`).
fn first_right_of(fxs: &[Fx], k: usize) -> (r: usize)
    ensures
        r == lower_bound_from(fxs@, k + 2, 0),
{
    let mut i: usize = 0;
    while i < fxs.len()
        invariant
            i <= fxs@.len(),
            lower_bound_from(fxs@, k + 2, 0) == lower_bound_from(fxs@, k + 2, i as int),
        decreases fxs@.len() - i,
    {
        if fxs[i].k >= k && fxs[i].k - k >= 2 {
            return i;
        }
        i += 1;
    }
    i
}

/// `f` is strictly more extreme than the same-kind endpoint `l`.
pub open spec fn more_extreme(f: Fx, l: Fx) -> bool {
    if l.top {
        f.feat > l.feat
    } else {
        f.feat < l.feat
    }
}

/// One step of the stroke search over fractal `fxs[i]`, given the endpoints
/// `eps` found so far; returns the new endpoints and the next fractal index.
///
/// An opposite fractal far enough away ends a stroke if the stroke start is
/// the extreme of its kind on the span (else the start is dropped and the
/// search resumes from the opposite extreme before the more extreme start)
/// and the end is the extreme of its kind there, moving in its direction;
/// otherwise the search jumps to the fractal on its right. A more extreme
/// fractal of the same kind replaces the last endpoint.
pub open spec fn stroke_step(ks: Seq<ChanK>, fxs: Seq<Fx>, eps: Seq<Fx>, i: int) -> (Seq<Fx>, int) {
    let f = fxs[i];
    if eps.len() == 0 {
        (eps.push(f), i + 1)
    } else {
        let l = eps.last();
        let skip = (eps, lower_bound_from(fxs, f.k + 2, 0));
        if l.top != f.top {
            if f.k - l.k + 1 >= MIN_K {
                let start_ext = extreme_upto(ks, l.k as int, f.k as int, l.top);
                let si = find_k_from(fxs, start_ext, 0);
                if start_ext != l.k && si is Some && more_extreme(fxs[si.unwrap()], l) {
                    (
                        eps.drop_last(),
                        lower_bound_from(fxs, extreme_upto(ks, l.k as int, start_ext, !l.top), 0),
                    )
                } else {
                    let end_ext = extreme_upto(ks, l.k as int, f.k as int, f.top);
                    let rr = rel(ks[l.k as int].high, ks[l.k as int].low, ks[f.k as int].high, ks[f.k as int].low);
                    let dir_ok = if f.top {
                        rr.is_up()
                    } else {
                        rr.is_down()
                    };
                    if end_ext == f.k && dir_ok {
                        (eps.push(f), i + 1)
                    } else {
                        skip
                    }
                }
            } else {
                skip
            }
        } else if more_extreme(f, l) {
            if eps.len() == 1 {
                (seq![f], i + 1)
            } else {
                (
                    eps.drop_last(),
                    lower_bound_from(fxs, extreme_upto(ks, l.k as int, f.k as int, !l.top), 0),
                )
            }
        } else {
            (eps, i + 1)
        }
    }
}

/// Runs the stroke search from state `(eps, i)` after `guard` steps.
pub open spec fn stroke_run(ks: Seq<ChanK>, fxs: Seq<Fx>, eps: Seq<Fx>, i: int, guard: int) -> Seq<
    Fx,
>
    decreases STROKE_GUARD - guard,
{
    if i < 0 || i >= fxs.len() || guard >= STROKE_GUARD {
        eps
    } else {
        let (e, j) = stroke_step(ks, fxs, eps, i);
        stroke_run(ks, fxs, e, j, guard + 1)
    }
}

/// The result of `build_strokes`.
pub open spec fn spec_build_strokes(ks: Seq<ChanK>, fxs: Seq<Fx>) -> Seq<Fx> {
    stroke_run(ks, fxs, Seq::empty(), 0, 0)
}

/// Stroke endpoints alternate between tops and bottoms, and each stroke
/// spans at least `MIN_K` merged K-lines.
pub open spec fn strokes_alternate(eps: Seq<Fx>) -> bool {
    forall|j: int|
        #![trigger eps[j]]
        0 <= j < eps.len() - 1 ==> eps[j].top != eps[j + 1].top && eps[j].k + (MIN_K - 1) <= eps[j
            + 1].k
}

/// A stroke from `a` to `b`: the K-line of `b` is strictly more extreme in
/// `b`'s kind (higher for a top, lower for a bottom) than every K-line from
/// `a` up to it, and the stroke moves that way from `a`'s K-line (up to a
/// top, down to a bottom).
pub open spec fn stroke_ok(ks: Seq<ChanK>, a: Fx, b: Fx) -> bool {
    let rr = rel(ks[a.k as int].high, ks[a.k as int].low, ks[b.k as int].high, ks[b.k as int].low);
    &&& forall|m: int| a.k <= m < b.k ==> #[trigger] better(ks, b.k as int, m, b.top)
    &&& if b.top {
        rr.is_up()
    } else {
        rr.is_down()
    }
}

/// Every stroke between consecutive endpoints is a valid stroke.
pub open spec fn strokes_sound(ks: Seq<ChanK>, eps: Seq<Fx>) -> bool {
    forall|j: int| 0 <= j < eps.len() - 1 ==> stroke_ok(ks, #[trigger] eps[j], eps[j + 1])
}

/// Invariant of the stroke search.
pub open spec fn stroke_state_ok(ks: Seq<ChanK>, fxs: Seq<Fx>, eps: Seq<Fx>, i: int) -> bool {
    &&& 0 <= i <= fxs.len()
    &&& strokes_alternate(eps)
    &&& strokes_sound(ks, eps)
    &&& forall|j: int| 0 <= j < eps.len() ==> fxs.contains(#[trigger] eps[j])
    &&& eps.len() > 0 ==> forall|t: int| i <= t < fxs.len() ==> #[trigger] fxs[t].k >= eps.last().k
}

proof fn lemma_sorted_after_bound(fxs: Seq<Fx>, ks: Seq<ChanK>, w: int)
    requires
        fxs_ordered(ks, fxs),
    ensures
        0 <= lower_bound_from(fxs, w, 0) <= fxs.len(),
        forall|t: int| lower_bound_from(fxs, w, 0) <= t < fxs.len() ==> #[trigger] fxs[t].k >= w,
{
    lemma_lower_bound(fxs, w, 0);
    let r = lower_bound_from(fxs, w, 0);
    assert forall|t: int| r <= t < fxs.len() implies #[trigger] fxs[t].k >= w by {
        if t > r {
            assert(fxs[r].k <= fxs[t].k);
        }
    }
}

/// The search step keeps the invariant.
proof fn lemma_stroke_step_ok(ks: Seq<ChanK>, fxs: Seq<Fx>, eps: Seq<Fx>, i: int)
    requires
        fxs_ordered(ks, fxs),
        stroke_state_ok(ks, fxs, eps, i),
        i < fxs.len(),
    ensures
        stroke_state_ok(ks, fxs, stroke_step(ks, fxs, eps, i).0, stroke_step(ks, fxs, eps, i).1),
{
    let f = fxs[i];
    assert(fxs.contains(f));
    if eps.len() > 0 {
        let l = eps.last();
        assert(f.k >= l.k);
        let (e2, j2) = stroke_step(ks, fxs, eps, i);
        lemma_sorted_after_bound(fxs, ks, f.k + 2);
        if eps.len() >= 2 {
            let p = eps.len() - 2;
            assert(eps[p].k + (MIN_K - 1) <= eps[p + 1].k);
        }
        if l.top != f.top {
            if f.k - l.k + 1 >= MIN_K {
                let start_ext = extreme_upto(ks, l.k as int, f.k as int, l.top);
                lemma_extreme_range(ks, l.k as int, f.k as int, l.top);
                lemma_extreme_range(ks, l.k as int, start_ext, !l.top);
                lemma_sorted_after_bound(
                    fxs,
                    ks,
                    extreme_upto(ks, l.k as int, start_ext, !l.top),
                );
            }
        } else {
            lemma_extreme_range(ks, l.k as int, f.k as int, !l.top);
            lemma_sorted_after_bound(fxs, ks, extreme_upto(ks, l.k as int, f.k as int, !l.top));
        }
        assert forall|j: int| 0 <= j < e2.len() - 1 implies #[trigger] e2[j].top != e2[j + 1].top
            && e2[j].k + (MIN_K - 1) <= e2[j + 1].k by {
            assert(e2[j] == e2[j]);
            if j < eps.len() - 1 {
                assert(e2[j] == eps[j] && e2[j + 1] == eps[j + 1]);
            }
        }
        if l.top != f.top && f.k - l.k + 1 >= MIN_K {
            lemma_extreme_first(ks, l.k as int, f.k as int, f.top);
        }
        assert forall|j: int| 0 <= j < e2.len() - 1 implies stroke_ok(ks, #[trigger] e2[j], e2[j + 1]) by {
            if j < eps.len() - 1 {
                assert(e2[j] == eps[j] && e2[j + 1] == eps[j + 1]);
            } else {
                assert(e2 == eps.push(f));
                assert(e2[j] == l && e2[j + 1] == f);
                assert forall|m: int| l.k <= m < f.k implies #[trigger] better(ks, f.k as int, m, f.top) by {
                    assert(extreme_upto(ks, l.k as int, f.k as int, f.top) == f.k);
                }
            }
        }
        assert forall|j: int| 0 <= j < e2.len() implies fxs.contains(#[trigger] e2[j]) by {
            if e2 == seq![f] {
                assert(e2[j] == f);
            } else if j < eps.len() {
                assert(e2[j] == eps[j]);
            } else {
                assert(e2[j] == f);
            }
        }
    }
}

proof fn lemma_stroke_run_ok(ks: Seq<ChanK>, fxs: Seq<Fx>, eps: Seq<Fx>, i: int, guard: int)
    requires
        fxs_ordered(ks, fxs),
        stroke_state_ok(ks, fxs, eps, i),
    ensures
        strokes_alternate(stroke_run(ks, fxs, eps, i, guard)),
        strokes_sound(ks, stroke_run(ks, fxs, eps, i, guard)),
        forall|j: int|
            0 <= j < stroke_run(ks, fxs, eps, i, guard).len() ==> fxs.contains(
                #[trigger] stroke_run(ks, fxs, eps, i, guard)[j],
            ),
    decreases STROKE_GUARD - guard,
{
    if !(i < 0 || i >= fxs.len() || guard >= STROKE_GUARD) {
        lemma_stroke_step_ok(ks, fxs, eps, i);
        let (e, j) = stroke_step(ks, fxs, eps, i);
        lemma_stroke_run_ok(ks, fxs, e, j, guard + 1);
    }
}

/// Over fractals all of one kind, the search keeps a single endpoint, the
/// most extreme fractal read so far.
proof fn lemma_one_kind_run(ks: Seq<ChanK>, fxs: Seq<Fx>, eps: Seq<Fx>, i: int)
    requires
        fxs.len() <= STROKE_GUARD,
        0 <= i <= fxs.len(),
        forall|t: int| 0 <= t < fxs.len() ==> #[trigger] fxs[t].top == fxs[0].top,
        i == 0 ==> eps.len() == 0,
        i > 0 ==> {
            &&& eps.len() == 1
            &&& fxs.contains(eps[0])
            &&& eps[0].top == fxs[0].top
            &&& forall|t: int| 0 <= t < i ==> !more_extreme(#[trigger] fxs[t], eps[0])
        },
    ensures
        fxs.len() > 0 ==> {
            let r = stroke_run(ks, fxs, eps, i, i);
            &&& r.len() == 1
            &&& fxs.contains(r[0])
            &&& forall|t: int| 0 <= t < fxs.len() ==> !more_extreme(#[trigger] fxs[t], r[0])
        },
    decreases fxs.len() - i,
{
    if i < fxs.len() {
        let f = fxs[i];
        assert(fxs.contains(f));
        let (e2, j2) = stroke_step(ks, fxs, eps, i);
        assert(j2 == i + 1);
        if i == 0 {
            assert(e2 == seq![f]);
            assert(e2[0] == f);
        } else {
            let l = eps[0];
            assert(eps.last() == l);
            assert(f.top == l.top);
            if more_extreme(f, l) {
                assert(e2 == seq![f]);
                assert(e2[0] == f);
                assert forall|t: int| 0 <= t < i + 1 implies !more_extreme(#[trigger] fxs[t], e2[0]) by {
                    if t < i {
                        assert(!more_extreme(fxs[t], l));
                    }
                }
            } else {
                assert(e2 == eps);
            }
        }
        lemma_one_kind_run(ks, fxs, e2, j2);
    }
}

/// When every fractal is of one kind, the stroke search ends with a single
/// endpoint: one of the fractals, and none of them is more extreme (higher
/// for tops, lower for bottoms). A later, more extreme fractal of the same
/// kind always replaces a lone endpoint.
pub proof fn lemma_strokes_one_kind(ks: Seq<ChanK>, fxs: Seq<Fx>)
    requires
        0 < fxs.len() <= STROKE_GUARD,
        forall|t: int| 0 <= t < fxs.len() ==> #[trigger] fxs[t].top == fxs[0].top,
    ensures
        spec_build_strokes(ks, fxs).len() == 1,
        fxs.contains(spec_build_strokes(ks, fxs)[0]),
        forall|t: int|
            0 <= t < fxs.len() ==> !more_extreme(#[trigger] fxs[t], spec_build_strokes(ks, fxs)[0]),
{
    lemma_one_kind_run(ks, fxs, Seq::empty(), 0);
}

/// The stroke endpoints alternate with long enough strokes, each is one of
/// the fractals, and every stroke ends at a K-line strictly more extreme
/// than all before it on the stroke and moves in the stroke's direction.
pub proof fn lemma_strokes_ok(ks: Seq<ChanK>, fxs: Seq<Fx>)
    requires
        fxs_ordered(ks, fxs),
    ensures
        strokes_alternate(spec_build_strokes(ks, fxs)),
        strokes_sound(ks, spec_build_strokes(ks, fxs)),
        forall|j: int|
            0 <= j < spec_build_strokes(ks, fxs).len() ==> fxs.contains(
                #[trigger] spec_build_strokes(ks, fxs)[j],
            ),
{
    lemma_stroke_run_ok(ks, fxs, Seq::empty(), 0, 0);
}

/// Stroke endpoints: walks the fractals, keeping an alternating sequence of
/// tops and bottoms in which every stroke spans at least `MIN_K` merged
/// K-lines, starts at the extreme of its kind and ends at the extreme of
/// the opposite kind, moving in the stroke's direction.
pub fn build_strokes(ks: &[ChanK], fxs: &[Fx]) -> (eps: Vec<Fx>)
    requires
        fxs_ordered(ks@, fxs@),
    ensures
        eps@ == spec_build_strokes(ks@, fxs@),
        strokes_alternate(eps@),
        strokes_sound(ks@, eps@),
        forall|j: int| 0 <= j < eps@.len() ==> fxs@.contains(#[trigger] eps@[j]),
{
    let mut eps: Vec<Fx> = Vec::new();
    if fxs.len() == 0 {
        return eps;
    }
    let mut guard: usize = 0;
    let mut i: usize = 0;
    proof {
        lemma_stroke_run_ok(ks@, fxs@, eps@, 0, 0);
    }
    while i < fxs.len() && guard < STROKE_GUARD
        invariant
            fxs_ordered(ks@, fxs@),
            stroke_state_ok(ks@, fxs@, eps@, i as int),
            guard <= STROKE_GUARD,
            stroke_run(ks@, fxs@, eps@, i as int, guard as int) == spec_build_strokes(ks@, fxs@),
        decreases STROKE_GUARD - guard,
    {
        guard += 1;
        proof {
            lemma_stroke_step_ok(ks@, fxs@, eps@, i as int);
        }
        let ghost step = stroke_step(ks@, fxs@, eps@, i as int);
        let f = fxs[i];
        proof {
            assert(fxs@.contains(f));
        }
        if eps.len() == 0 {
            eps.push(f);
            i += 1;
            proof {
                assert(eps@ == step.0);
            }
            continue;
        }
        let l = eps[eps.len() - 1];
        proof {
            assert(fxs@[i as int].k >= eps@.last().k);
            assert(fxs@[i as int].k < ks@.len());
            assert(l == eps@.last());
        }
        let nks = ks.len();
        assert(f.k < nks);
        if l.top != f.top {
            let span = f.k - l.k + 1;
            let mut handled = false;
            if span >= MIN_K {
                let start_ext = extreme_k(ks, l.k, f.k, l.top);
                if start_ext != l.k {
                    let pos = position_of_k(fxs, start_ext);
                    proof {
                        lemma_find_k(fxs@, start_ext as int, 0);
                    }
                    if let Some(si) = pos {
                        let se = fxs[si];
                        let more = if l.top {
                            se.feat > l.feat
                        } else {
                            se.feat < l.feat
                        };
                        if more {
                            eps.pop();
                            let wj = extreme_k(ks, l.k, start_ext, !l.top);
                            i = first_from(fxs, wj);
                            proof {
                                assert(eps@ == step.0);
                            }
                            continue;
                        }
                    }
                }
                let end_ext = extreme_k(ks, l.k, f.k, f.top);
                let dir_ok = {
                    let rr = rel(ks[l.k].high, ks[l.k].low, ks[f.k].high, ks[f.k].low);
                    if f.top {
                        rr.is_up()
                    } else {
                        rr.is_down()
                    }
                };
                if end_ext == f.k && dir_ok {
                    eps.push(f);
                    handled = true;
                }
            }
            if !handled {
                i = first_right_of(fxs, f.k);
                continue;
            }
            i += 1;
        } else {
            let more = if l.top {
                f.feat > l.feat
            } else {
                f.feat < l.feat
            };
            if more {
                eps.pop();
                if eps.len() == 0 {
                    eps.push(f);
                    i += 1;
                    proof {
                        assert(eps@ == step.0);
                    }
                } else {
                    let wj = extreme_k(ks, l.k, f.k, !l.top);
                    i = first_from(fxs, wj);
                }
            } else {
                i += 1;
            }
        }
    }
    eps
}

/// A stroke (or segment) drawn as a line between two endpoints.
#[derive(Clone, Copy, Debug)]
pub struct Line {
    /// raw bar of the start endpoint
    pub wen: usize,
    /// raw bar of the end endpoint
    pub wu: usize,
    pub dir_up: bool,
    pub high: i64,
    pub low: i64,
    pub wen_feat: i64,
    pub wu_feat: i64,
}

/// The line from endpoint `a` to endpoint `b`.
pub open spec fn line_between(ks: Seq<ChanK>, a: Fx, b: Fx) -> Line {
    Line {
        wen: ks[a.k as int].mark_bar,
        wu: ks[b.k as int].mark_bar,
        dir_up: b.top,
        high: max_i64(a.feat, b.feat),
        low: min_i64(a.feat, b.feat),
        wen_feat: a.feat,
        wu_feat: b.feat,
    }
}

/// The result of `strokes_to_lines`: one line per consecutive endpoint pair.
pub open spec fn spec_strokes_to_lines(ks: Seq<ChanK>, eps: Seq<Fx>) -> Seq<Line> {
    if eps.len() == 0 {
        Seq::empty()
    } else {
        Seq::new((eps.len() - 1) as nat, |j: int| line_between(ks, eps[j], eps[j + 1]))
    }
}

/// Lines whose range is spanned by their two endpoint values and where
/// each line starts where the previous one ends.
pub open spec fn lines_connected(lines: Seq<Line>) -> bool {
    &&& forall|j: int|
        #![trigger lines[j]]
        0 <= j < lines.len() ==> lines[j].high == max_i64(lines[j].wen_feat, lines[j].wu_feat)
            && lines[j].low == min_i64(lines[j].wen_feat, lines[j].wu_feat)
    &&& forall|j: int|
        #![trigger lines[j]]
        0 <= j < lines.len() - 1 ==> lines[j].wu == lines[j + 1].wen && lines[j].wu_feat == lines[j
            + 1].wen_feat
}

/// Consecutive lines point in opposite directions.
pub open spec fn lines_alternate(lines: Seq<Line>) -> bool {
    forall|j: int| 0 <= j < lines.len() - 1 ==> #[trigger] lines[j].dir_up != lines[j + 1].dir_up
}

/// Lines go forward in time: each ends after it starts, and no line starts
/// before the previous one ends.
pub open spec fn lines_ordered(lines: Seq<Line>) -> bool {
    &&& forall|j: int| 0 <= j < lines.len() ==> #[trigger] lines[j].wen < lines[j].wu
    &&& forall|j: int| 0 <= j < lines.len() - 1 ==> #[trigger] lines[j].wu <= lines[j + 1].wen
}

/// Every line's endpoints are raw bars below `nb`.
pub open spec fn lines_below(lines: Seq<Line>, nb: int) -> bool {
    forall|j: int| #![trigger lines[j]] 0 <= j < lines.len() ==> lines[j].wen < nb && lines[j].wu < nb
}

/// Mark bars strictly increase along merged K-lines that cover the raw bars.
pub proof fn lemma_mark_bar_increasing(ks: Seq<ChanK>, n: int, a: int, b: int)
    requires
        covers_bars(ks, n),
        0 <= a < b < ks.len(),
    ensures
        ks[a].mark_bar < ks[b].mark_bar,
    decreases b - a,
{
    assert(ks[b - 1].raw_end + 1 == ks[b].raw_start);
    assert(ks[b].raw_start <= ks[b].mark_bar);
    assert(ks[b - 1].mark_bar <= ks[b - 1].raw_end);
    if a < b - 1 {
        lemma_mark_bar_increasing(ks, n, a, b - 1);
    }
}

/// K-lines covering `n` raw bars number at most `n`.
pub proof fn lemma_mark_bar_increasing_len(ks: Seq<ChanK>, n: int)
    requires
        covers_bars(ks, n),
        ks.len() > 0,
    ensures
        ks.len() <= n,
{
    assert forall|j: int| 0 <= j < ks.len() implies #[trigger] ks[j].mark_bar >= j by {
        lemma_mark_bar_from(ks, n, j);
    }
    assert(ks[ks.len() - 1].mark_bar < n);
}

proof fn lemma_mark_bar_from(ks: Seq<ChanK>, n: int, j: int)
    requires
        covers_bars(ks, n),
        0 <= j < ks.len(),
    ensures
        ks[j].mark_bar >= j,
    decreases j,
{
    if j > 0 {
        lemma_mark_bar_from(ks, n, j - 1);
        lemma_mark_bar_increasing(ks, n, j - 1, j);
    }
}

/// Stroke lines are connected; they alternate when the endpoints do; and
/// on K-lines covering the raw bars, with endpoints in increasing order,
/// they go forward in time.
pub proof fn lemma_stroke_lines(ks: Seq<ChanK>, eps: Seq<Fx>)
    requires
        forall|j: int| 0 <= j < eps.len() ==> #[trigger] eps[j].k < ks.len(),
    ensures
        lines_connected(spec_strokes_to_lines(ks, eps)),
        strokes_alternate(eps) ==> lines_alternate(spec_strokes_to_lines(ks, eps)),
        forall|n: int|
            #[trigger] covers_bars(ks, n) && strokes_alternate(eps) ==> lines_ordered(
                spec_strokes_to_lines(ks, eps),
            ),
{
    let s = spec_strokes_to_lines(ks, eps);
    assert forall|t: int| #![trigger s[t]] 0 <= t < s.len() - 1 implies s[t].wu == s[t + 1].wen
        && s[t].wu_feat == s[t + 1].wen_feat by {
        assert(s[t] == line_between(ks, eps[t], eps[t + 1]));
        assert(s[t + 1] == line_between(ks, eps[t + 1], eps[t + 2]));
    }
    if strokes_alternate(eps) {
        assert forall|t: int| 0 <= t < s.len() - 1 implies #[trigger] s[t].dir_up != s[t
            + 1].dir_up by {
            assert(s[t] == line_between(ks, eps[t], eps[t + 1]));
            assert(s[t + 1] == line_between(ks, eps[t + 1], eps[t + 2]));
            assert(eps[t].top != eps[t + 1].top);
            assert(eps[t + 1].top != eps[t + 2].top);
        }
    }
    assert forall|n: int| #[trigger] covers_bars(ks, n) && strokes_alternate(eps) implies lines_ordered(
        s,
    ) by {
        assert forall|j: int| 0 <= j < s.len() implies #[trigger] s[j].wen < s[j].wu by {
            assert(s[j] == line_between(ks, eps[j], eps[j + 1]));
            assert(eps[j].k < eps[j + 1].k);
            lemma_mark_bar_increasing(ks, n, eps[j].k as int, eps[j + 1].k as int);
        }
        assert forall|j: int| 0 <= j < s.len() - 1 implies #[trigger] s[j].wu <= s[j + 1].wen by {
            assert(s[j] == line_between(ks, eps[j], eps[j + 1]));
            assert(s[j + 1] == line_between(ks, eps[j + 1], eps[j + 2]));
        }
    }
}

/// Turns stroke endpoints into stroke lines.
pub fn strokes_to_lines(ks: &[ChanK], eps: &[Fx]) -> (out: Vec<Line>)
    requires
        forall|j: int| 0 <= j < eps@.len() ==> #[trigger] eps@[j].k < ks@.len(),
    ensures
        out@ == spec_strokes_to_lines(ks@, eps@),
        lines_connected(out@),
        strokes_alternate(eps@) ==> lines_alternate(out@),
        forall|n: int|
            #[trigger] covers_bars(ks@, n) && strokes_alternate(eps@) ==> lines_ordered(out@),
{
    let mut out: Vec<Line> = Vec::new();
    if eps.len() == 0 {
        return out;
    }
    let mut j: usize = 0;
    while j < eps.len() - 1
        invariant
            eps@.len() >= 1,
            j + 1 <= eps@.len(),
            forall|t: int| 0 <= t < eps@.len() ==> #[trigger] eps@[t].k < ks@.len(),
            out@.len() == j,
            forall|t: int| 0 <= t < j ==> #[trigger] out@[t] == line_between(ks@, eps@[t], eps@[t + 1]),
        decreases eps@.len() - j,
    {
        let a = eps[j];
        let b = eps[j + 1];
        out.push(
            Line {
                wen: ks[a.k].mark_bar,
                wu: ks[b.k].mark_bar,
                dir_up: b.top,
                high: if a.feat >= b.feat { a.feat } else { b.feat },
                low: if a.feat <= b.feat { a.feat } else { b.feat },
                wen_feat: a.feat,
                wu_feat: b.feat,
            },
        );
        j += 1;
    }
    proof {
        assert(out@ =~= spec_strokes_to_lines(ks@, eps@));
        lemma_stroke_lines(ks@, eps@);
    }
    out
}

} // verus!
