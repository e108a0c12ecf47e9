//! An event-driven left-to-right sweep classifying which stroke
//! segments come within an eraser path's swept band: segment x-spans,
//! with the eraser's grown by the radius, are processed in ascending
//! order while an active set ordered by right endpoint holds the
//! eraser segments whose span is still open. Exact distance tests run
//! only against the active set, so the work is proportional to the
//! x-overlaps rather than to all pairs.

use vstd::multiset::Multiset;
use vstd::prelude::*;
use vstd::seq_lib::group_to_multiset_ensures;

use crate::geom::{
    seg_xmax, seg_xmin, lemma_seg_seg_within_xoverlap, Pt, COORD_LIMIT,
};
use crate::split::seg_near_path;

verus! {

broadcast use group_to_multiset_ensures, vstd::set::group_set_axioms;

/// Lexicographic order on key-index pairs, the order `Ord` gives
/// tuples of integers.
pub open spec fn pair_le(x: (i64, u64), y: (i64, u64)) -> bool {
    x.0 < y.0 || (x.0 == y.0 && x.1 <= y.1)
}

/// A sequence sorted by `pair_le`.
pub open spec fn pairs_sorted(s: Seq<(i64, u64)>) -> bool {
    forall|i: int, j: int| 0 <= i <= j < s.len() ==> pair_le(#[trigger] s[i], #[trigger] s[j])
}

/// Sorts key-index pairs by selection: repeatedly move the least
/// remaining pair to the output.
fn sort_pairs(input: Vec<(i64, u64)>) -> (out: Vec<(i64, u64)>)
    ensures
        pairs_sorted(out@),
        out@.to_multiset() == input@.to_multiset(),
{
    let mut rest = input;
    let ghost all = rest@.to_multiset();
    let mut out: Vec<(i64, u64)> = Vec::new();
    proof {
        assert(out@.to_multiset().add(rest@.to_multiset()) =~= all);
    }
    while rest.len() > 0
        invariant
            pairs_sorted(out@),
            out@.to_multiset().add(rest@.to_multiset()) == all,
            forall|k: int, j: int|
                0 <= k < out@.len() && 0 <= j < rest@.len() ==> pair_le(
                    #[trigger] out@[k],
                    #[trigger] rest@[j],
                ),
        decreases rest@.len(),
    {
        let mut mi: usize = 0;
        let mut j: usize = 1;
        while j < rest.len()
            invariant
                rest@.len() > 0,
                0 <= mi < rest@.len(),
                1 <= j <= rest@.len(),
                forall|j2: int| 0 <= j2 < j ==> pair_le(rest@[mi as int], #[trigger] rest@[j2]),
            decreases rest@.len() - j,
        {
            let cand = rest[j];
            let cur = rest[mi];
            if cand.0 < cur.0 || (cand.0 == cur.0 && cand.1 < cur.1) {
                mi = j;
            }
            j = j + 1;
        }
        let ghost rest_pre = rest@;
        let e = rest.remove(mi);
        proof {
            assert(rest@.to_multiset() =~= rest_pre.to_multiset().remove(e));
            assert(rest_pre.to_multiset().contains(e));
            assert(out@.push(e).to_multiset() =~= out@.to_multiset().insert(e));
            assert(out@.push(e).to_multiset().add(rest@.to_multiset()) =~= all);
            assert(forall|j2: int|
                0 <= j2 < rest@.len() ==> rest_pre.contains(#[trigger] rest@[j2])) by {
                assert forall|j2: int| 0 <= j2 < rest@.len() implies rest_pre.contains(
                    #[trigger] rest@[j2],
                ) by {
                    if j2 < mi {
                        assert(rest@[j2] == rest_pre[j2]);
                    } else {
                        assert(rest@[j2] == rest_pre[j2 + 1]);
                    }
                }
            }
        }
        out.push(e);
        proof {
            assert(forall|k: int|
                0 <= k < out@.len() - 1 ==> pair_le(#[trigger] out@[k], e));
            assert(pairs_sorted(out@)) by {
                assert forall|i1: int, j1: int|
                    0 <= i1 <= j1 < out@.len() implies pair_le(
                    #[trigger] out@[i1],
                    #[trigger] out@[j1],
                ) by {
                    if j1 < out@.len() - 1 {
                    } else if i1 < j1 {
                        assert(out@[j1] == e);
                    }
                }
            }
            assert forall|k: int, j2: int|
                0 <= k < out@.len() && 0 <= j2 < rest@.len() implies pair_le(
                #[trigger] out@[k],
                #[trigger] rest@[j2],
            ) by {
                let w = choose|w: int| 0 <= w < rest_pre.len() && rest_pre[w] == rest@[j2];
                if k < out@.len() - 1 {
                } else {
                    assert(out@[k] == e);
                    assert(pair_le(rest_pre[mi as int], rest_pre[w]));
                }
            }
        }
    }
    proof {
        assert(rest@.to_multiset() =~= Multiset::<(i64, u64)>::empty());
        assert(out@.to_multiset().add(rest@.to_multiset()) =~= out@.to_multiset());
    }
    out
}


/// The `aatree` balanced-tree set, declared so that verified code can
/// hold one as the sweep's ordered active structure.
#[verifier::external_type_specification]
#[verifier::external_body]
#[verifier::reject_recursive_types(T)]
pub struct ExAATreeSet<T>(aatree::AATreeSet<T>);

/// The active structure: eraser segments keyed by the right end of
/// their grown x-span, so the one ending soonest is always first.
pub type ActiveSet = aatree::AATreeSet<(i64, u64)>;

/// What an active set holds.
pub uninterp spec fn aset_contents(t: ActiveSet) -> Set<(i64, u64)>;

/// What listing an active set answers: exactly its members.
pub open spec fn aset_lists(items: Seq<(i64, u64)>, s: Set<(i64, u64)>) -> bool {
    forall|e: (i64, u64)| #[trigger] items.contains(e) <==> s.contains(e)
}

/// Relies on `aatree::AATreeSet::new`: it returns an empty set.
#[verifier::external_body]
fn aset_new() -> (t: ActiveSet)
    ensures
        aset_contents(t) == Set::<(i64, u64)>::empty(),
        aset_contents(t).finite(),
{
    aatree::AATreeSet::new()
}

/// Relies on `aatree::AATreeSet::insert`: it adds the value, with set
/// semantics, and says whether the value was new.
#[verifier::external_body]
fn aset_insert(t: &mut ActiveSet, e: (i64, u64)) -> (added: bool)
    requires
        aset_contents(*old(t)).finite(),
    ensures
        aset_contents(*final(t)) == aset_contents(*old(t)).insert(e),
        aset_contents(*final(t)).finite(),
        added == !aset_contents(*old(t)).contains(e),
{
    t.insert(e)
}

/// Relies on `aatree::AATreeSet::pop_first`: it removes and returns
/// the least element in the order `Ord` gives integer pairs, or
/// nothing from an empty set.
#[verifier::external_body]
fn aset_pop_first(t: &mut ActiveSet) -> (r: Option<(i64, u64)>)
    requires
        aset_contents(*old(t)).finite(),
    ensures
        aset_contents(*final(t)).finite(),
        match r {
            Some(e) => {
                &&& aset_contents(*old(t)).contains(e)
                &&& forall|x: (i64, u64)| aset_contents(*old(t)).contains(x) ==> pair_le(e, x)
                &&& aset_contents(*final(t)) == aset_contents(*old(t)).remove(e)
            },
            None => aset_contents(*old(t)) == Set::<(i64, u64)>::empty() && *final(t) == *old(t),
        },
{
    t.pop_first()
}

/// Relies on `aatree::AATreeSet::first`: it returns the least element
/// without removing it, or nothing from an empty set.
#[verifier::external_body]
fn aset_first(t: &ActiveSet) -> (r: Option<(i64, u64)>)
    ensures
        match r {
            Some(e) => aset_contents(*t).contains(e) && forall|x: (i64, u64)|
                aset_contents(*t).contains(x) ==> pair_le(e, x),
            None => aset_contents(*t) == Set::<(i64, u64)>::empty(),
        },
{
    t.first().copied()
}

/// Relies on `aatree::AATreeSet::iter`: it visits every member once,
/// so the collected list holds exactly the set's members.
#[verifier::external_body]
fn aset_items(t: &ActiveSet) -> (items: Vec<(i64, u64)>)
    ensures
        aset_lists(items@, aset_contents(*t)),
{
    t.iter().copied().collect()
}


/// The left end of stroke segment `i`'s x-span.
pub open spec fn skey_min(pts: Seq<Pt>, i: int) -> int {
    seg_xmin(pts[i], pts[i + 1])
}

/// The right end of stroke segment `i`'s x-span.
pub open spec fn skey_max(pts: Seq<Pt>, i: int) -> int {
    seg_xmax(pts[i], pts[i + 1])
}

/// The left end of eraser segment `j`'s x-span, grown by `r`.
pub open spec fn ekey_min(q: Seq<Pt>, j: int, r: int) -> int {
    seg_xmin(q[j], q[j + 1]) - r
}

/// The right end of eraser segment `j`'s x-span, grown by `r`.
pub open spec fn ekey_max(q: Seq<Pt>, j: int, r: int) -> int {
    seg_xmax(q[j], q[j + 1]) + r
}

/// Classifies every segment of `pts` against the eraser path `q`
/// swept by radius `r`, by one left-to-right sweep: stroke spans are
/// visited in ascending left end; eraser spans open when the sweep
/// reaches their left end and leave the active structure once it has
/// passed their right end; the exact distance test runs only against
/// the open spans. The answer equals the pairwise one exactly.
pub fn classify_near_path(pts: &Vec<Pt>, q: &Vec<Pt>, r: i64) -> (flags: Vec<bool>)
    requires
        crate::stroke::pts_in_range(pts@),
        pts@.len() >= 2,
        crate::stroke::pts_in_range(q@),
        0 <= r <= COORD_LIMIT,
    ensures
        flags@.len() == pts@.len() - 1,
        forall|i: int|
            0 <= i < flags@.len() ==> flags@[i] == seg_near_path(
                pts@[i],
                pts@[i + 1],
                q@,
                r as int,
            ),
{
    let ns = pts.len() - 1;
    let mut flags: Vec<bool> = Vec::new();
    while flags.len() < ns
        invariant
            flags@.len() <= ns,
            forall|i: int| 0 <= i < flags@.len() ==> flags@[i] == false,
        decreases ns - flags@.len(),
    {
        flags.push(false);
    }
    if q.len() < 2 {
        return flags;
    }
    let ms = q.len() - 1;

    // Stroke spans keyed by left end.
    let mut ss_in: Vec<(i64, u64)> = Vec::new();
    let mut i: usize = 0;
    while i < ns
        invariant
            ns == pts@.len() - 1,
            0 <= i <= ns,
            ss_in@.len() == i,
            forall|k: int|
                0 <= k < i ==> #[trigger] ss_in@[k] == (skey_min(pts@, k) as i64, k as u64),
        decreases ns - i,
    {
        let a = pts[i];
        let b = pts[i + 1];
        let lo = if a.x <= b.x { a.x } else { b.x };
        ss_in.push((lo, i as u64));
        i = i + 1;
    }
    // Eraser spans keyed by grown left end.
    let mut es_in: Vec<(i64, u64)> = Vec::new();
    let mut j: usize = 0;
    while j < ms
        invariant
            ms == q@.len() - 1,
            0 <= j <= ms,
            crate::stroke::pts_in_range(q@),
            0 <= r <= COORD_LIMIT,
            es_in@.len() == j,
            forall|k: int|
                0 <= k < j ==> #[trigger] es_in@[k] == (ekey_min(q@, k, r as int) as i64, k as u64),
        decreases ms - j,
    {
        let a = q[j];
        let b = q[j + 1];
        let lo = if a.x <= b.x { a.x } else { b.x };
        es_in.push((lo - r, j as u64));
        j = j + 1;
    }
    let ghost ss_in0 = ss_in@;
    let ghost es_in0 = es_in@;
    let ss = sort_pairs(ss_in);
    let es = sort_pairs(es_in);
    proof {
        assert(ss@.to_multiset().len() == ss@.len());
        assert(ss_in0.to_multiset().len() == ss_in0.len());
        assert(es@.to_multiset().len() == es@.len());
        assert(es_in0.to_multiset().len() == es_in0.len());
        assert(ss@.len() == ns && es@.len() == ms);
        assert forall|k: int| 0 <= k < ns implies (#[trigger] ss@[k]).1 < ns && ss@[k].0
            == skey_min(pts@, ss@[k].1 as int) by {
            assert(ss@.contains(ss@[k]));
            assert(ss@.to_multiset().count(ss@[k]) > 0);
            assert(ss_in0.to_multiset().count(ss@[k]) > 0);
            assert(ss_in0.contains(ss@[k]));
            let w = choose|w: int| 0 <= w < ss_in0.len() && ss_in0[w] == ss@[k];
        }
        assert forall|i2: int| 0 <= i2 < ns implies ss@.contains(
            (skey_min(pts@, i2) as i64, i2 as u64),
        ) by {
            assert(ss_in0[i2] == (skey_min(pts@, i2) as i64, i2 as u64));
            assert(ss_in0.contains(ss_in0[i2]));
            assert(ss_in0.to_multiset().count(ss_in0[i2]) > 0);
            assert(ss@.to_multiset().count(ss_in0[i2]) > 0);
        }
        assert forall|k: int| 0 <= k < ms implies (#[trigger] es@[k]).1 < ms && es@[k].0
            == ekey_min(q@, es@[k].1 as int, r as int) by {
            assert(es@.contains(es@[k]));
            assert(es@.to_multiset().count(es@[k]) > 0);
            assert(es_in0.to_multiset().count(es@[k]) > 0);
            assert(es_in0.contains(es@[k]));
            let w = choose|w: int| 0 <= w < es_in0.len() && es_in0[w] == es@[k];
        }
        assert forall|j2: int| 0 <= j2 < ms implies es@.contains(
            (ekey_min(q@, j2, r as int) as i64, j2 as u64),
        ) by {
            assert(es_in0[j2] == (ekey_min(q@, j2, r as int) as i64, j2 as u64));
            assert(es_in0.contains(es_in0[j2]));
            assert(es_in0.to_multiset().count(es_in0[j2]) > 0);
            assert(es@.to_multiset().count(es_in0[j2]) > 0);
        }
    }

    let mut active = aset_new();
    let mut p: usize = 0;
    let mut k: usize = 0;
    let ghost mut lo_bar: int = i64::MIN as int;
    while k < ns
        invariant
            ns == pts@.len() - 1,
            ms == q@.len() - 1,
            q@.len() >= 2,
            crate::stroke::pts_in_range(pts@),
            crate::stroke::pts_in_range(q@),
            0 <= r <= COORD_LIMIT,
            0 <= k <= ns,
            0 <= p <= ms,
            ss@.len() == ns,
            es@.len() == ms,
            pairs_sorted(ss@),
            pairs_sorted(es@),
            forall|k2: int|
                0 <= k2 < ns ==> (#[trigger] ss@[k2]).1 < ns && ss@[k2].0 == skey_min(
                    pts@,
                    ss@[k2].1 as int,
                ),
            forall|i2: int|
                0 <= i2 < ns ==> ss@.contains((skey_min(pts@, i2) as i64, i2 as u64)),
            forall|k2: int|
                0 <= k2 < ms ==> (#[trigger] es@[k2]).1 < ms && es@[k2].0 == ekey_min(
                    q@,
                    es@[k2].1 as int,
                    r as int,
                ),
            forall|j2: int|
                0 <= j2 < ms ==> es@.contains((ekey_min(q@, j2, r as int) as i64, j2 as u64)),
            aset_contents(active).finite(),
            forall|e: (i64, u64)|
                aset_contents(active).contains(e) ==> e.1 < ms && e.0 == ekey_max(
                    q@,
                    e.1 as int,
                    r as int,
                ),
            forall|pj: int|
                0 <= pj < p ==> (ekey_max(q@, (#[trigger] es@[pj]).1 as int, r as int) >= lo_bar
                    ==> aset_contents(active).contains(
                    (ekey_max(q@, es@[pj].1 as int, r as int) as i64, es@[pj].1),
                )),
            k > 0 ==> lo_bar == ss@[k - 1].0,
            k == 0 ==> lo_bar == i64::MIN as int,
            flags@.len() == ns,
            forall|i2: int|
                0 <= i2 < ns ==> if (exists|k2: int| 0 <= k2 < k && (#[trigger] ss@[k2]).1
                    == i2 as u64) {
                    flags@[i2] == seg_near_path(pts@[i2], pts@[i2 + 1], q@, r as int)
                } else {
                    flags@[i2] == false
                },
        decreases ns - k,
    {
        let entry = ss[k];
        proof {
            assert(ss@[k as int].1 < ns);
            if k > 0 {
                assert(pair_le(ss@[k - 1], ss@[k as int]));
            }
        }
        let si = entry.1 as usize;
        let a = pts[si];
        let b = pts[si + 1];
        let smax = if a.x <= b.x { b.x } else { a.x };
        proof {
            assert(entry.0 == skey_min(pts@, si as int));
            assert(smax == skey_max(pts@, si as int));
            assert(lo_bar <= entry.0 as int);
        }
        // Open every eraser span whose grown left end the sweep line
        // has reached.
        while p < ms && es[p].0 <= smax
            invariant
                ms == q@.len() - 1,
                q@.len() >= 2,
                crate::stroke::pts_in_range(q@),
                0 <= r <= COORD_LIMIT,
                0 <= p <= ms,
                es@.len() == ms,
                forall|k2: int|
                    0 <= k2 < ms ==> (#[trigger] es@[k2]).1 < ms && es@[k2].0 == ekey_min(
                        q@,
                        es@[k2].1 as int,
                        r as int,
                    ),
                aset_contents(active).finite(),
                forall|e: (i64, u64)|
                    aset_contents(active).contains(e) ==> e.1 < ms && e.0 == ekey_max(
                        q@,
                        e.1 as int,
                        r as int,
                    ),
                forall|pj: int|
                    0 <= pj < p ==> (ekey_max(q@, (#[trigger] es@[pj]).1 as int, r as int)
                        >= lo_bar ==> aset_contents(active).contains(
                        (ekey_max(q@, es@[pj].1 as int, r as int) as i64, es@[pj].1),
                    )),
            decreases ms - p,
        {
            let ee = es[p];
            proof {
                assert(es@[p as int].1 < ms);
            }
            let ej = ee.1 as usize;
            let ea = q[ej];
            let eb = q[ej + 1];
            let ehi = if ea.x <= eb.x { eb.x } else { ea.x };
            let _added = aset_insert(&mut active, (ehi + r, ee.1));
            proof {
                assert(ehi + r == ekey_max(q@, ej as int, r as int));
            }
            p = p + 1;
        }
        // Retire every span that ended left of this stroke span: it
        // cannot overlap this or any later stroke span.
        let mut scanning = true;
        while scanning
            invariant
                aset_contents(active).finite(),
                forall|e: (i64, u64)|
                    aset_contents(active).contains(e) ==> e.1 < ms && e.0 == ekey_max(
                        q@,
                        e.1 as int,
                        r as int,
                    ),
                forall|pj: int|
                    0 <= pj < p ==> (ekey_max(q@, (#[trigger] es@[pj]).1 as int, r as int)
                        >= entry.0 as int ==> aset_contents(active).contains(
                        (ekey_max(q@, es@[pj].1 as int, r as int) as i64, es@[pj].1),
                    )),
                es@.len() == ms,
                forall|k2: int|
                    0 <= k2 < ms ==> (#[trigger] es@[k2]).1 < ms && es@[k2].0 == ekey_min(
                        q@,
                        es@[k2].1 as int,
                        r as int,
                    ),
                !scanning ==> forall|e: (i64, u64)|
                    aset_contents(active).contains(e) ==> e.0 >= entry.0,
            decreases aset_contents(active).len() + (if scanning {
                1int
            } else {
                0int
            }),
        {
            match aset_first(&active) {
                Some(e) => {
                    if e.0 < entry.0 {
                        let ghost pre_active = aset_contents(active);
                        let popped = aset_pop_first(&mut active);
                        proof {
                            assert forall|pj: int|
                                0 <= pj < p && ekey_max(
                                    q@,
                                    (#[trigger] es@[pj]).1 as int,
                                    r as int,
                                ) >= entry.0 as int implies aset_contents(active).contains(
                                (ekey_max(q@, es@[pj].1 as int, r as int) as i64, es@[pj].1),
                            ) by {
                                let pr = (ekey_max(q@, es@[pj].1 as int, r as int) as i64, es@[pj].1);
                                assert(pre_active.contains(pr));
                                assert(pr.0 as int >= entry.0 as int);
                                match popped {
                                    Some(pe) => {
                                        assert(pair_le(pe, e));
                                        assert(pr != pe);
                                    },
                                    None => {},
                                }
                            }
                        }
                    } else {
                        proof {
                            assert forall|e2: (i64, u64)| aset_contents(active).contains(
                                e2,
                            ) implies e2.0 >= entry.0 by {
                                assert(pair_le(e, e2));
                            }
                        }
                        scanning = false;
                    }
                },
                None => {
                    scanning = false;
                },
            }
        }
        // Test this stroke span against every open eraser span.
        let items = aset_items(&active);
        let mut hit = false;
        let mut t: usize = 0;
        while t < items.len()
            invariant
                ns == pts@.len() - 1,
                ms == q@.len() - 1,
                q@.len() >= 2,
                crate::stroke::pts_in_range(pts@),
                crate::stroke::pts_in_range(q@),
                0 <= r <= COORD_LIMIT,
                si < ns,
                a == pts@[si as int],
                b == pts@[si as int + 1],
                0 <= t <= items@.len(),
                forall|e: (i64, u64)|
                    aset_contents(active).contains(e) ==> e.1 < ms && e.0 == ekey_max(
                        q@,
                        e.1 as int,
                        r as int,
                    ),
                aset_lists(items@, aset_contents(active)),
                hit ==> exists|j2: int|
                    0 <= j2 && j2 + 1 < q@.len() && #[trigger] crate::geom::seg_seg_within(
                        a,
                        b,
                        q@[j2],
                        q@[j2 + 1],
                        r as int,
                    ),
                !hit ==> forall|t2: int|
                    0 <= t2 < t ==> !crate::geom::seg_seg_within(
                        a,
                        b,
                        q@[(#[trigger] items@[t2]).1 as int],
                        q@[items@[t2].1 as int + 1],
                        r as int,
                    ),
            decreases items@.len() - t,
        {
            let it = items[t];
            proof {
                assert(items@.contains(items@[t as int]));
                assert(aset_contents(active).contains(it));
            }
            let ej = it.1 as usize;
            if crate::geom::seg_seg_within_ck(a, b, q[ej], q[ej + 1], r) {
                hit = true;
            }
            t = t + 1;
        }
        proof {
            // The sweep answers exactly the pairwise question.
            if seg_near_path(a, b, q@, r as int) && !hit {
                let j2 = choose|j2: int|
                    0 <= j2 && j2 + 1 < q@.len() && #[trigger] crate::geom::seg_seg_within(
                        a,
                        b,
                        q@[j2],
                        q@[j2 + 1],
                        r as int,
                    );
                lemma_seg_seg_within_xoverlap(a, b, q@[j2], q@[j2 + 1], r as int);
                // Its span was opened: it starts at or before this
                // stroke span's right end.
                assert(es@.contains((ekey_min(q@, j2, r as int) as i64, j2 as u64)));
                let pj = choose|pj: int|
                    0 <= pj < es@.len() && es@[pj] == (ekey_min(q@, j2, r as int) as i64, j2 as u64);
                assert(pj < p) by {
                    if pj >= p {
                        assert(p < ms);
                        assert(pair_le(es@[p as int], es@[pj]));
                    }
                }
                // And it was not retired: it ends at or after this
                // stroke span's left end.
                assert(ekey_max(q@, j2, r as int) >= entry.0 as int);
                let e = (ekey_max(q@, j2, r as int) as i64, j2 as u64);
                assert(aset_contents(active).contains(e));
                assert(items@.contains(e));
                let t2 = choose|t2: int| 0 <= t2 < items@.len() && items@[t2] == e;
                assert(!crate::geom::seg_seg_within(
                    a,
                    b,
                    q@[items@[t2].1 as int],
                    q@[items@[t2].1 as int + 1],
                    r as int,
                ));
            }
            assert(hit == seg_near_path(a, b, q@, r as int));
        }
        let ghost flags_pre = flags@;
        flags[si] = hit;
        proof {
            assert(flags@ =~= flags_pre.update(si as int, hit));
            lo_bar = entry.0 as int;
            assert forall|i2: int| 0 <= i2 < ns implies (if (exists|k2: int|
                0 <= k2 < k + 1 && (#[trigger] ss@[k2]).1 == i2 as u64) {
                flags@[i2] == seg_near_path(pts@[i2], pts@[i2 + 1], q@, r as int)
            } else {
                flags@[i2] == false
            }) by {
                if i2 == si {
                    assert(ss@[k as int].1 == i2 as u64);
                } else {
                    assert(flags@[i2] == flags_pre[i2]);
                    if exists|k2: int| 0 <= k2 < k + 1 && (#[trigger] ss@[k2]).1 == i2 as u64 {
                        let k2 = choose|k2: int|
                            0 <= k2 < k + 1 && (#[trigger] ss@[k2]).1 == i2 as u64;
                        assert(k2 < k);
                    }
                }
            }
        }
        k = k + 1;
    }
    proof {
        assert forall|i2: int| 0 <= i2 < ns implies flags@[i2] == seg_near_path(
            pts@[i2],
            pts@[i2 + 1],
            q@,
            r as int,
        ) by {
            assert(ss@.contains((skey_min(pts@, i2) as i64, i2 as u64)));
            let k2 = choose|k2: int|
                0 <= k2 < ss@.len() && ss@[k2] == (skey_min(pts@, i2) as i64, i2 as u64);
            assert(ss@[k2].1 == i2 as u64);
        }
    }
    flags
}

} // verus!
