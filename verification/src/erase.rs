//! The erase engine: whole-object erase against an eraser stroke, and
//! split erase, which clips strokes at an eraser's influence region and
//! keeps the sub-runs outside it.

use vstd::prelude::*;

use crate::geom::{dist2, env_intersects, env_of, Env, Pt, COORD_LIMIT};
use crate::index::{
    data_in_region, data_valid, datas_of, lemma_filter_all, lemma_filter_push, sdata,
    SpatialDocument, StrokeData,
};
use crate::stroke::{pts_in_range, strokes_intersect, stroke_valid, Stroke};

verus! {

/// Filtering by pointwise-equal tests gives the same sequence.
pub proof fn lemma_filter_congruence<A>(s: Seq<A>, p1: spec_fn(A) -> bool, p2: spec_fn(A) -> bool)
    requires
        forall|i: int| 0 <= i < s.len() ==> p1(#[trigger] s[i]) == p2(s[i]),
    ensures
        s.filter(p1) == s.filter(p2),
    decreases s.len(),
{
    reveal(Seq::filter);
    if s.len() > 0 {
        lemma_filter_congruence(s.drop_last(), p1, p2);
    }
}

/// A sequence none of whose members pass the test filters to nothing.
pub proof fn lemma_filter_none<A>(s: Seq<A>, pred: spec_fn(A) -> bool)
    requires
        forall|i: int| 0 <= i < s.len() ==> !pred(#[trigger] s[i]),
    ensures
        s.filter(pred) == Seq::<A>::empty(),
    decreases s.len(),
{
    reveal(Seq::filter);
    if s.len() > 0 {
        lemma_filter_none(s.drop_last(), pred);
    }
}

/// The document after an object erase with eraser polyline `q`: strokes
/// whose envelope misses the eraser's envelope stay in place; the
/// envelope candidates are drained and the survivors, those that do not
/// geometrically intersect the eraser, are re-inserted behind them in
/// their old order. A candidate is tested against the eraser alone,
/// never against other candidates, so the outcome is that of the
/// original document state.
pub open spec fn object_erased(doc: Seq<StrokeData>, q: Seq<Pt>) -> Seq<StrokeData> {
    let qe = env_of(q);
    doc.filter(|d: StrokeData| !env_intersects(env_of(d.pts), qe)) + doc.filter(
        |d: StrokeData| env_intersects(env_of(d.pts), qe),
    ).filter(|d: StrokeData| !strokes_intersect(d.pts, q))
}

/// An object erase whose eraser envelope touches no stroke leaves the
/// document exactly as it was.
pub proof fn lemma_object_erase_noop(doc: Seq<StrokeData>, q: Seq<Pt>)
    requires
        forall|k: int|
            0 <= k < doc.len() ==> !env_intersects(env_of((#[trigger] doc[k]).pts), env_of(q)),
    ensures
        object_erased(doc, q) == doc,
{
    let qe = env_of(q);
    lemma_filter_all(doc, |d: StrokeData| !env_intersects(env_of(d.pts), qe));
    lemma_filter_none(doc, |d: StrokeData| env_intersects(env_of(d.pts), qe));
    reveal(Seq::filter);
    assert(object_erased(doc, q) =~= doc);
}

/// Membership in a concatenation is membership in either part.
proof fn lemma_concat_membership<A>(s1: Seq<A>, s2: Seq<A>, x: A)
    ensures
        (s1 + s2).contains(x) <==> s1.contains(x) || s2.contains(x),
{
    if (s1 + s2).contains(x) {
        let w = choose|w: int| 0 <= w < (s1 + s2).len() && (s1 + s2)[w] == x;
        if w < s1.len() {
            assert(s1[w] == x);
        } else {
            assert(s2[w - s1.len()] == x);
        }
    }
    if s1.contains(x) {
        let w = choose|w: int| 0 <= w < s1.len() && s1[w] == x;
        assert((s1 + s2)[w] == x);
    }
    if s2.contains(x) {
        let w = choose|w: int| 0 <= w < s2.len() && s2[w] == x;
        assert((s1 + s2)[s1.len() + w] == x);
    }
}

/// Object erase deletes exactly the strokes that intersect the eraser:
/// the erased document holds a stroke if and only if the document held
/// it and its polyline does not intersect the eraser's.
pub proof fn lemma_object_erase_membership(doc: Seq<StrokeData>, q: Seq<Pt>, d: StrokeData)
    ensures
        object_erased(doc, q).contains(d) <==> doc.contains(d) && !strokes_intersect(d.pts, q),
{
    let qe = env_of(q);
    let far = |d2: StrokeData| !env_intersects(env_of(d2.pts), qe);
    let near = |d2: StrokeData| env_intersects(env_of(d2.pts), qe);
    let miss = |d2: StrokeData| !strokes_intersect(d2.pts, q);
    crate::index::lemma_filter_membership(doc, far, d);
    crate::index::lemma_filter_membership(doc, near, d);
    crate::index::lemma_filter_membership(doc.filter(near), miss, d);
    lemma_concat_membership(doc.filter(far), doc.filter(near).filter(miss), d);
    if strokes_intersect(d.pts, q) {
        crate::geom::lemma_strokes_intersect_env(d.pts, q);
    }
}

/// Whole-object erase: every stroke whose geometry intersects the
/// eraser stroke `q` is deleted; all others survive unchanged.
pub fn object_erase(doc: &mut SpatialDocument, q: &Stroke)
    requires
        old(doc).wf(),
        q.points@.len() >= 1,
        pts_in_range(q.points@),
    ensures
        final(doc).wf(),
        final(doc)@ == object_erased(old(doc)@, q.points@),
{
    let qenv = q.envelope();
    proof {
        crate::geom::lemma_env_of_bounds(q.points@, 0);
    }
    let mut cands = doc.drain_range(&qenv);
    let ghost cands0 = datas_of(cands@);
    let ghost base = doc@;
    let ghost nint = |d: StrokeData| !strokes_intersect(d.pts, q.points@);
    let mut k: usize = 0;
    let total = cands.len();
    proof {
        assert(cands0.subrange(0, 0) =~= Seq::<StrokeData>::empty());
        reveal(Seq::filter);
    }
    while cands.len() > 0
        invariant
            doc.wf(),
            pts_in_range(q.points@),
            k + cands@.len() == total,
            k <= total,
            total == cands0.len(),
            nint == |d: StrokeData| !strokes_intersect(d.pts, q.points@),
            datas_of(cands@) == cands0.subrange(k as int, total as int),
            forall|j: int| 0 <= j < cands@.len() ==> stroke_valid(#[trigger] cands@[j]),
            doc@ == base + cands0.subrange(0, k as int).filter(nint),
        decreases cands@.len(),
    {
        let ghost pre_c = cands@;
        let c = cands.remove(0);
        proof {
            assert(datas_of(pre_c)[0] == sdata(pre_c[0]));
            assert(sdata(c) == cands0[k as int]);
            assert(datas_of(cands@) =~= cands0.subrange(k + 1, total as int)) by {
                assert(cands@ =~= pre_c.subrange(1, pre_c.len() as int));
                assert forall|j: int| 0 <= j < cands@.len() implies datas_of(cands@)[j]
                    == cands0.subrange(k + 1, total as int)[j] by {
                    assert(datas_of(cands@)[j] == sdata(cands@[j]));
                    assert(cands@[j] == pre_c[j + 1]);
                    assert(datas_of(pre_c)[j + 1] == sdata(pre_c[j + 1]));
                }
            }
            assert(cands0.subrange(0, k + 1) =~= cands0.subrange(0, k as int).push(sdata(c)));
            lemma_filter_push(cands0.subrange(0, k as int), nint, sdata(c));
        }
        if !c.intersects(q) {
            doc.insert(c);
            proof {
                assert(doc@ =~= base + cands0.subrange(0, k + 1).filter(nint));
            }
        } else {
            proof {
                assert(doc@ =~= base + cands0.subrange(0, k + 1).filter(nint));
            }
        }
        k = k + 1;
    }
    proof {
        assert(cands0.subrange(0, total as int) =~= cands0);
        let qe = env_of(q.points@);
        lemma_filter_congruence(
            old(doc)@,
            |d: StrokeData| !data_in_region(d, qenv),
            |d: StrokeData| !env_intersects(env_of(d.pts), qe),
        );
        lemma_filter_congruence(
            old(doc)@,
            |d: StrokeData| data_in_region(d, qenv),
            |d: StrokeData| env_intersects(env_of(d.pts), qe),
        );
        lemma_filter_congruence(
            cands0,
            nint,
            |d: StrokeData| !strokes_intersect(d.pts, q.points@),
        );
    }
}


/// The envelope of the disc of radius `r` about `c`.
pub open spec fn point_region(c: Pt, r: int) -> Env {
    Env {
        min_x: (c.x - r) as i64,
        min_y: (c.y - r) as i64,
        max_x: (c.x + r) as i64,
        max_y: (c.y + r) as i64,
    }
}

/// The strokes made from a list of point runs, all in one style.
pub open spec fn strokes_of_runs(
    runs: Seq<Seq<Pt>>,
    color: crate::stroke::Color,
    alpha: u8,
) -> Seq<StrokeData> {
    runs.map_values(|run: Seq<Pt>| StrokeData { pts: run, color, alpha })
}

/// What one envelope candidate becomes under a point erase: a stroke
/// none of whose segments come within `r` of `c` survives whole; any
/// other is replaced by its kept sub-runs.
pub open spec fn split_point_part(d: StrokeData, c: Pt, r: int) -> Seq<StrokeData> {
    if crate::split::has_erased_seg_point(d.pts, c, r) {
        strokes_of_runs(crate::split::split_point_runs(d.pts, c, r), d.color, d.alpha)
    } else {
        seq![d]
    }
}

/// What a candidate list becomes under a point erase, in order.
pub open spec fn split_appendix_point(cands: Seq<StrokeData>, c: Pt, r: int) -> Seq<StrokeData>
    decreases cands.len(),
{
    if cands.len() == 0 {
        Seq::empty()
    } else {
        split_appendix_point(cands.drop_last(), c, r) + split_point_part(cands.last(), c, r)
    }
}

/// The document after a point erase at `c` with radius `r`: strokes
/// whose envelope misses the disc's envelope stay in place; the
/// envelope candidates are drained and re-inserted behind them, each
/// either whole or as its kept sub-runs.
pub open spec fn split_point_erased(doc: Seq<StrokeData>, c: Pt, r: int) -> Seq<StrokeData> {
    doc.filter(|d: StrokeData| !data_in_region(d, point_region(c, r))) + split_appendix_point(
        doc.filter(|d: StrokeData| data_in_region(d, point_region(c, r))),
        c,
        r,
    )
}

/// Point-radius split erase over the whole document: every stroke
/// keeps exactly the sub-runs of its polyline that stay outside the
/// disc of radius `radius` about `center`, clipped at the boundary;
/// sub-strokes shorter than two points are dropped.
pub fn split_erase_point(doc: &mut SpatialDocument, center: Pt, radius: i64)
    requires
        old(doc).wf(),
        crate::geom::pt_in_range(center),
        0 <= radius <= COORD_LIMIT,
    ensures
        final(doc).wf(),
        final(doc)@ == split_point_erased(old(doc)@, center, radius as int),
{
    let region = Env {
        min_x: center.x - radius,
        min_y: center.y - radius,
        max_x: center.x + radius,
        max_y: center.y + radius,
    };
    let mut cands = doc.drain_range(&region);
    let ghost cands0 = datas_of(cands@);
    let ghost base = doc@;
    let mut k: usize = 0;
    let total = cands.len();
    proof {
        assert(cands0.subrange(0, 0) =~= Seq::<StrokeData>::empty());
        reveal(Seq::filter);
    }
    while cands.len() > 0
        invariant
            doc.wf(),
            crate::geom::pt_in_range(center),
            0 <= radius <= COORD_LIMIT,
            k + cands@.len() == total,
            k <= total,
            total == cands0.len(),
            datas_of(cands@) == cands0.subrange(k as int, total as int),
            forall|j: int| 0 <= j < cands@.len() ==> stroke_valid(#[trigger] cands@[j]),
            doc@ == base + split_appendix_point(
                cands0.subrange(0, k as int),
                center,
                radius as int,
            ),
        decreases cands@.len(),
    {
        let ghost pre_c = cands@;
        let c = cands.remove(0);
        proof {
            assert(datas_of(pre_c)[0] == sdata(pre_c[0]));
            assert(sdata(c) == cands0[k as int]);
            assert(datas_of(cands@) =~= cands0.subrange(k + 1, total as int)) by {
                assert(cands@ =~= pre_c.subrange(1, pre_c.len() as int));
                assert forall|j: int| 0 <= j < cands@.len() implies datas_of(cands@)[j]
                    == cands0.subrange(k + 1, total as int)[j] by {
                    assert(datas_of(cands@)[j] == sdata(cands@[j]));
                    assert(cands@[j] == pre_c[j + 1]);
                    assert(datas_of(pre_c)[j + 1] == sdata(pre_c[j + 1]));
                }
            }
            assert(cands0.subrange(0, k + 1).drop_last() =~= cands0.subrange(0, k as int));
            assert(cands0.subrange(0, k + 1).last() == sdata(c));
        }
        if crate::split::stroke_has_erased_seg_point(&c.points, center, radius) {
            let mut runs = crate::split::split_stroke_point(&c.points, center, radius);
            let ghost runs0 = crate::split::runs_view(runs@);
            proof {
                crate::split::lemma_split_point_outside(c.points@, center, radius as int);
            }
            let mut j: usize = 0;
            let rtotal = runs.len();
            let ghost part = strokes_of_runs(runs0, c.color, c.alpha);
            proof {
                assert(part.subrange(0, 0) =~= Seq::<StrokeData>::empty());
                assert(doc@ + part.subrange(0, 0) =~= doc@);
            }
            let ghost doc_base = doc@;
            while runs.len() > 0
                invariant
                    doc.wf(),
                    j + runs@.len() == rtotal,
                    j <= rtotal,
                    rtotal == runs0.len(),
                    part == strokes_of_runs(runs0, c.color, c.alpha),
                    crate::split::runs_view(runs@) == runs0.subrange(j as int, rtotal as int),
                    crate::split::runs_ok(runs0, center, radius as int),
                    doc@ == doc_base + part.subrange(0, j as int),
                decreases runs@.len(),
            {
                let ghost pre_r = runs@;
                let run = runs.remove(0);
                let s = Stroke { points: run, color: c.color, alpha: c.alpha };
                proof {
                    assert(crate::split::runs_view(pre_r)[0] == pre_r[0]@);
                    assert(run@ == runs0[j as int]);
                    assert(crate::split::runs_view(runs@) =~= runs0.subrange(
                        j + 1,
                        rtotal as int,
                    )) by {
                        assert(runs@ =~= pre_r.subrange(1, pre_r.len() as int));
                        assert forall|j2: int| 0 <= j2 < runs@.len() implies crate::split::runs_view(
                            runs@,
                        )[j2] == runs0.subrange(j + 1, rtotal as int)[j2] by {
                            assert(crate::split::runs_view(runs@)[j2] == runs@[j2]@);
                            assert(runs@[j2] == pre_r[j2 + 1]);
                            assert(crate::split::runs_view(pre_r)[j2 + 1] == pre_r[j2 + 1]@);
                        }
                    }
                    assert(stroke_valid(s));
                    assert(sdata(s) == part[j as int]);
                    assert(part.subrange(0, j + 1) =~= part.subrange(0, j as int).push(sdata(s)));
                }
                doc.insert(s);
                proof {
                    assert(doc@ =~= doc_base + part.subrange(0, j + 1));
                }
                j = j + 1;
            }
            proof {
                assert(part.subrange(0, rtotal as int) =~= part);
                assert(split_point_part(sdata(c), center, radius as int) == part);
                assert(doc@ =~= base + split_appendix_point(
                    cands0.subrange(0, k + 1),
                    center,
                    radius as int,
                ));
            }
        } else {
            doc.insert(c);
            proof {
                assert(split_point_part(sdata(c), center, radius as int) =~= seq![sdata(c)]);
                assert(doc@ =~= base + split_appendix_point(
                    cands0.subrange(0, k + 1),
                    center,
                    radius as int,
                ));
            }
        }
        k = k + 1;
    }
    proof {
        assert(cands0.subrange(0, total as int) =~= cands0);
        lemma_filter_congruence(
            old(doc)@,
            |d: StrokeData| !data_in_region(d, region),
            |d: StrokeData| !data_in_region(d, point_region(center, radius as int)),
        );
        lemma_filter_congruence(
            old(doc)@,
            |d: StrokeData| data_in_region(d, region),
            |d: StrokeData| data_in_region(d, point_region(center, radius as int)),
        );
    }
}


/// The envelope of the eraser path `q`, grown by the sweep radius `r`
/// on every side.
pub open spec fn path_region(q: Seq<Pt>, r: int) -> Env {
    let qe = env_of(q);
    Env {
        min_x: (qe.min_x - r) as i64,
        min_y: (qe.min_y - r) as i64,
        max_x: (qe.max_x + r) as i64,
        max_y: (qe.max_y + r) as i64,
    }
}

/// What one envelope candidate becomes under a path erase.
pub open spec fn split_path_part(d: StrokeData, q: Seq<Pt>, r: int) -> Seq<StrokeData> {
    if crate::split::has_erased_seg_path(d.pts, q, r) {
        strokes_of_runs(crate::split::split_path_runs(d.pts, q, r), d.color, d.alpha)
    } else {
        seq![d]
    }
}

/// What a candidate list becomes under a path erase, in order.
pub open spec fn split_appendix_path(cands: Seq<StrokeData>, q: Seq<Pt>, r: int) -> Seq<StrokeData>
    decreases cands.len(),
{
    if cands.len() == 0 {
        Seq::empty()
    } else {
        split_appendix_path(cands.drop_last(), q, r) + split_path_part(cands.last(), q, r)
    }
}

/// The document after a path erase along `q` with radius `r`: strokes
/// whose envelope misses the eraser's inflated envelope stay in place;
/// the envelope candidates are drained and re-inserted behind them,
/// each either whole or as the runs of its kept segments.
pub open spec fn split_path_erased(doc: Seq<StrokeData>, q: Seq<Pt>, r: int) -> Seq<StrokeData> {
    doc.filter(|d: StrokeData| !data_in_region(d, path_region(q, r))) + split_appendix_path(
        doc.filter(|d: StrokeData| data_in_region(d, path_region(q, r))),
        q,
        r,
    )
}

/// Path split erase over the whole document: each stroke keeps the
/// runs of those segments whose minimum distance to the eraser path
/// exceeds `radius`; a segment within `radius` of the path is erased
/// whole, and sub-strokes shorter than two points are dropped. An
/// eraser of a single point, a click with no drag, acts as a
/// zero-length eraser at that point, still tested against the radius.
pub fn split_erase_path(doc: &mut SpatialDocument, q: &Stroke, radius: i64)
    requires
        old(doc).wf(),
        pts_in_range(q.points@),
        0 <= radius <= COORD_LIMIT,
    ensures
        final(doc).wf(),
        q.points@.len() >= 1 ==> final(doc)@ == split_path_erased(
            old(doc)@,
            q.points@,
            radius as int,
        ),
        q.points@.len() == 0 ==> *final(doc) == *old(doc),
{
    if q.points.len() == 0 {
        // An eraser with no points erases nothing.
        return;
    }
    let qenv = q.envelope();
    proof {
        crate::geom::lemma_env_of_bounds(q.points@, 0);
        crate::geom::lemma_env_of_range(q.points@);
    }
    let region = Env {
        min_x: qenv.min_x - radius,
        min_y: qenv.min_y - radius,
        max_x: qenv.max_x + radius,
        max_y: qenv.max_y + radius,
    };
    let mut cands = doc.drain_range(&region);
    let ghost cands0 = datas_of(cands@);
    let ghost base = doc@;
    let mut k: usize = 0;
    let total = cands.len();
    proof {
        assert(cands0.subrange(0, 0) =~= Seq::<StrokeData>::empty());
        reveal(Seq::filter);
    }
    while cands.len() > 0
        invariant
            doc.wf(),
            pts_in_range(q.points@),
            q.points@.len() >= 1,
            0 <= radius <= COORD_LIMIT,
            k + cands@.len() == total,
            k <= total,
            total == cands0.len(),
            datas_of(cands@) == cands0.subrange(k as int, total as int),
            forall|j: int| 0 <= j < cands@.len() ==> stroke_valid(#[trigger] cands@[j]),
            doc@ == base + split_appendix_path(
                cands0.subrange(0, k as int),
                q.points@,
                radius as int,
            ),
        decreases cands@.len(),
    {
        let ghost pre_c = cands@;
        let c = cands.remove(0);
        proof {
            assert(datas_of(pre_c)[0] == sdata(pre_c[0]));
            assert(sdata(c) == cands0[k as int]);
            assert(datas_of(cands@) =~= cands0.subrange(k + 1, total as int)) by {
                assert(cands@ =~= pre_c.subrange(1, pre_c.len() as int));
                assert forall|j: int| 0 <= j < cands@.len() implies datas_of(cands@)[j]
                    == cands0.subrange(k + 1, total as int)[j] by {
                    assert(datas_of(cands@)[j] == sdata(cands@[j]));
                    assert(cands@[j] == pre_c[j + 1]);
                    assert(datas_of(pre_c)[j + 1] == sdata(pre_c[j + 1]));
                }
            }
            assert(cands0.subrange(0, k + 1).drop_last() =~= cands0.subrange(0, k as int));
            assert(cands0.subrange(0, k + 1).last() == sdata(c));
        }
        if crate::split::stroke_has_erased_seg_path(&c.points, &q.points, radius) {
            let mut runs = crate::split::split_stroke_path(&c.points, &q.points, radius);
            let ghost runs0 = crate::split::runs_view(runs@);
            proof {
                crate::split::lemma_split_path_ok(c.points@, q.points@, radius as int);
            }
            let mut j: usize = 0;
            let rtotal = runs.len();
            let ghost part = strokes_of_runs(runs0, c.color, c.alpha);
            proof {
                assert(part.subrange(0, 0) =~= Seq::<StrokeData>::empty());
                assert(doc@ + part.subrange(0, 0) =~= doc@);
            }
            let ghost doc_base = doc@;
            while runs.len() > 0
                invariant
                    doc.wf(),
                    j + runs@.len() == rtotal,
                    j <= rtotal,
                    rtotal == runs0.len(),
                    part == strokes_of_runs(runs0, c.color, c.alpha),
                    crate::split::runs_view(runs@) == runs0.subrange(j as int, rtotal as int),
                    crate::split::path_runs_ok(runs0),
                    doc@ == doc_base + part.subrange(0, j as int),
                decreases runs@.len(),
            {
                let ghost pre_r = runs@;
                let run = runs.remove(0);
                let s = Stroke { points: run, color: c.color, alpha: c.alpha };
                proof {
                    assert(crate::split::runs_view(pre_r)[0] == pre_r[0]@);
                    assert(run@ == runs0[j as int]);
                    assert(crate::split::runs_view(runs@) =~= runs0.subrange(
                        j + 1,
                        rtotal as int,
                    )) by {
                        assert(runs@ =~= pre_r.subrange(1, pre_r.len() as int));
                        assert forall|j2: int| 0 <= j2 < runs@.len() implies crate::split::runs_view(
                            runs@,
                        )[j2] == runs0.subrange(j + 1, rtotal as int)[j2] by {
                            assert(crate::split::runs_view(runs@)[j2] == runs@[j2]@);
                            assert(runs@[j2] == pre_r[j2 + 1]);
                            assert(crate::split::runs_view(pre_r)[j2 + 1] == pre_r[j2 + 1]@);
                        }
                    }
                    assert(stroke_valid(s));
                    assert(sdata(s) == part[j as int]);
                    assert(part.subrange(0, j + 1) =~= part.subrange(0, j as int).push(sdata(s)));
                }
                doc.insert(s);
                proof {
                    assert(doc@ =~= doc_base + part.subrange(0, j + 1));
                }
                j = j + 1;
            }
            proof {
                assert(part.subrange(0, rtotal as int) =~= part);
                assert(split_path_part(sdata(c), q.points@, radius as int) == part);
                assert(doc@ =~= base + split_appendix_path(
                    cands0.subrange(0, k + 1),
                    q.points@,
                    radius as int,
                ));
            }
        } else {
            doc.insert(c);
            proof {
                assert(split_path_part(sdata(c), q.points@, radius as int) =~= seq![sdata(c)]);
                assert(doc@ =~= base + split_appendix_path(
                    cands0.subrange(0, k + 1),
                    q.points@,
                    radius as int,
                ));
            }
        }
        k = k + 1;
    }
    proof {
        assert(cands0.subrange(0, total as int) =~= cands0);
        lemma_filter_congruence(
            old(doc)@,
            |d: StrokeData| !data_in_region(d, region),
            |d: StrokeData| !data_in_region(d, path_region(q.points@, radius as int)),
        );
        lemma_filter_congruence(
            old(doc)@,
            |d: StrokeData| data_in_region(d, region),
            |d: StrokeData| data_in_region(d, path_region(q.points@, radius as int)),
        );
    }
}


/// A point outside the axis-aligned box of half-width `r` about `c`
/// lies at distance greater than `r` from `c`.
proof fn lemma_outside_box_far(p: Pt, c: Pt, r: int)
    requires
        r >= 0,
        p.x - c.x > r || c.x - p.x > r || p.y - c.y > r || c.y - p.y > r,
    ensures
        dist2(p, c) > r * r,
{
    assert(dist2(p, c) > r * r) by (nonlinear_arith)
        requires
            dist2(p, c) == (p.x - c.x) * (p.x - c.x) + (p.y - c.y) * (p.y - c.y),
            r >= 0,
            p.x - c.x > r || c.x - p.x > r || p.y - c.y > r || c.y - p.y > r,
    ;
}

/// Every vertex of every stroke a point-erase appendix produces lies
/// strictly outside the erased disc.
proof fn lemma_split_appendix_outside(cands: Seq<StrokeData>, c: Pt, r: int)
    requires
        crate::geom::pt_in_range(c),
        0 <= r <= crate::geom::COORD_LIMIT,
        forall|m: int| 0 <= m < cands.len() ==> data_valid(#[trigger] cands[m]),
    ensures
        ({
            let app = split_appendix_point(cands, c, r);
            forall|m: int, k: int|
                0 <= m < app.len() && 0 <= k < app[m].pts.len() ==> dist2(
                    #[trigger] app[m].pts[k],
                    c,
                ) > r * r
        }),
    decreases cands.len(),
{
    if cands.len() > 0 {
        lemma_split_appendix_outside(cands.drop_last(), c, r);
        let d = cands.last();
        let part = split_point_part(d, c, r);
        let app = split_appendix_point(cands, c, r);
        assert(data_valid(d));
        assert forall|m: int, k: int|
            0 <= m < part.len() && 0 <= k < part[m].pts.len() implies dist2(
            #[trigger] part[m].pts[k],
            c,
        ) > r * r by {
            if crate::split::has_erased_seg_point(d.pts, c, r) {
                crate::split::lemma_split_point_outside(d.pts, c, r);
                let runs = crate::split::split_point_runs(d.pts, c, r);
                assert(part[m].pts == runs[m]);
                assert(dist2(runs[m][k], c) > r * r);
            } else {
                assert(part[m] == d);
                let p = d.pts[k];
                if dist2(p, c) <= r * r {
                    assert(dist2(c, p) == dist2(p, c)) by (nonlinear_arith)
                        requires
                            dist2(c, p) == (c.x - p.x) * (c.x - p.x) + (c.y - p.y) * (c.y - p.y),
                            dist2(p, c) == (p.x - c.x) * (p.x - c.x) + (p.y - c.y) * (p.y - c.y),
                    ;
                    if k < d.pts.len() - 1 {
                        crate::geom::lemma_endpoint_within_seg(c, p, d.pts[k + 1], r);
                        assert(crate::geom::pt_seg_within(c, d.pts[k], d.pts[k + 1], r));
                    } else {
                        let k1 = k - 1;
                        crate::geom::lemma_endpoint_within_seg(c, d.pts[k1], p, r);
                        assert(crate::geom::pt_seg_within(c, d.pts[k1], d.pts[k1 + 1], r));
                    }
                    assert(crate::split::has_erased_seg_point(d.pts, c, r));
                    assert(false);
                }
            }
        }
        assert forall|m: int, k: int|
            0 <= m < app.len() && 0 <= k < app[m].pts.len() implies dist2(
            #[trigger] app[m].pts[k],
            c,
        ) > r * r by {
            let pre = split_appendix_point(cands.drop_last(), c, r);
            if m < pre.len() {
                assert(app[m] == pre[m]);
            } else {
                assert(app[m] == part[m - pre.len()]);
            }
        }
    }
}

/// After a point erase nothing in the document comes near the eraser:
/// every vertex of every remaining stroke lies strictly farther than
/// `r` from the erased center, whether the stroke was clipped, kept
/// whole, or never a candidate at all.
pub proof fn lemma_split_point_erased_outside(doc: Seq<StrokeData>, c: Pt, r: int)
    requires
        crate::geom::pt_in_range(c),
        0 <= r <= crate::geom::COORD_LIMIT,
        forall|m: int| 0 <= m < doc.len() ==> data_valid(#[trigger] doc[m]),
    ensures
        ({
            let res = split_point_erased(doc, c, r);
            forall|m: int, k: int|
                0 <= m < res.len() && 0 <= k < res[m].pts.len() ==> dist2(
                    #[trigger] res[m].pts[k],
                    c,
                ) > r * r
        }),
{
    let region = point_region(c, r);
    let far = doc.filter(|d: StrokeData| !data_in_region(d, region));
    let near = doc.filter(|d: StrokeData| data_in_region(d, region));
    let res = split_point_erased(doc, c, r);
    assert forall|m: int| 0 <= m < near.len() implies data_valid(#[trigger] near[m]) by {
        assert(near.contains(near[m]));
        crate::index::lemma_filter_membership(doc, |d: StrokeData| data_in_region(d, region), near[m]);
        let w = choose|w: int| 0 <= w < doc.len() && doc[w] == near[m];
    }
    lemma_split_appendix_outside(near, c, r);
    assert forall|m: int, k: int|
        0 <= m < res.len() && 0 <= k < res[m].pts.len() implies dist2(
        #[trigger] res[m].pts[k],
        c,
    ) > r * r by {
        if m < far.len() {
            assert(res[m] == far[m]);
            let d = far[m];
            assert(far.contains(d));
            crate::index::lemma_filter_membership(
                doc,
                |d2: StrokeData| !data_in_region(d2, region),
                d,
            );
            let w = choose|w: int| 0 <= w < doc.len() && doc[w] == d;
            assert(data_valid(d));
            doc.lemma_filter_pred(|d2: StrokeData| !data_in_region(d2, region), m);
            assert(!data_in_region(d, region));
            crate::geom::lemma_env_of_bounds(d.pts, k);
            lemma_outside_box_far(d.pts[k], c, r);
        } else {
            assert(res[m] == split_appendix_point(near, c, r)[m - far.len()]);
        }
    }
}

} // verus!
