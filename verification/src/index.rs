//! The spatial stroke document: a set of committed strokes indexed by
//! their envelopes in an R-tree, with range queries, draining removal,
//! and removal by radius.
//!
//! The R-tree itself comes from the `rstar` crate and holds, for each
//! live stroke, one entry pairing the stroke's envelope rectangle with
//! its slot number. The strokes live in a slot table here; every query
//! answer from the tree is re-checked against the slot table, so the
//! ordered results below depend on the tree only for completeness.

use vstd::multiset::Multiset;
use vstd::prelude::*;

use crate::geom::{env_intersects, env_of, env_intersects_ck, dist2, Env, Pt, COORD_LIMIT};
use crate::stroke::{pts_in_range, stroke_valid, Stroke};

verus! {

broadcast use vstd::multiset::group_multiset_axioms;

/// An `rstar` R-tree of index entries, held whole in one opaque field:
/// each entry pairs an integer rectangle with a slot number. The trait
/// bounds of `rstar::RTree` keep the type itself from being declared to
/// the verifier, so the tree is carried opaquely and spoken about only
/// through `tree_contents` and the wrappers below.
#[verifier::external_body]
pub struct StrokeTree {
    tree: rstar::RTree<
        rstar::primitives::GeomWithData<rstar::primitives::Rectangle<[i64; 2]>, u64>,
    >,
}

/// What an R-tree holds: each element as the corners of its rectangle,
/// `(min x, min y, max x, max y)`, and its payload slot number.
pub uninterp spec fn tree_contents(t: StrokeTree) -> Multiset<(i64, i64, i64, i64, u64)>;

/// The envelope named by an entry tuple.
pub open spec fn entry_env(e: (i64, i64, i64, i64, u64)) -> Env {
    Env { min_x: e.0, min_y: e.1, max_x: e.2, max_y: e.3 }
}

/// What a range query must answer given contents `ms` and query box
/// `q`: `ids` holds a slot number exactly when some entry carrying it
/// meets the box.
pub open spec fn query_answers(ids: Seq<u64>, ms: Multiset<(i64, i64, i64, i64, u64)>, q: Env) -> bool {
    forall|id: u64|
        #[trigger] ids.contains(id) <==> exists|e: (i64, i64, i64, i64, u64)|
            #[trigger] ms.count(e) > 0 && e.4 == id && env_intersects(entry_env(e), q)
}

/// Relies on `rstar::RTree::new`: it returns a tree of no elements.
#[verifier::external_body]
fn tree_new() -> (t: StrokeTree)
    ensures
        tree_contents(t) == Multiset::<(i64, i64, i64, i64, u64)>::empty(),
{
    StrokeTree { tree: rstar::RTree::new() }
}

/// Relies on `rstar::RTree::insert`: it adds exactly the given element,
/// present twice afterwards if it already was there. The corners are
/// ordered, so `Rectangle::from_corners` keeps them as given. The
/// corners must lie within the coordinate range: insertion computes
/// envelope areas and sums of areas in 64-bit arithmetic while choosing
/// a subtree and splitting nodes, and corner magnitudes up to
/// `COORD_LIMIT` keep every such product and sum in range.
#[verifier::external_body]
fn tree_insert(t: &mut StrokeTree, x1: i64, y1: i64, x2: i64, y2: i64, id: u64)
    requires
        -COORD_LIMIT <= x1 <= x2 <= COORD_LIMIT,
        -COORD_LIMIT <= y1 <= y2 <= COORD_LIMIT,
    ensures
        tree_contents(*final(t)) == tree_contents(*old(t)).insert((x1, y1, x2, y2, id)),
{
    t.tree.insert(rstar::primitives::GeomWithData::new(
        rstar::primitives::Rectangle::from_corners([x1, y1], [x2, y2]),
        id,
    ));
}

/// Relies on `rstar::RTree::locate_in_envelope_intersecting`: it yields
/// exactly the elements whose rectangle meets the closed query box, so a
/// slot number comes back if and only if some element carrying it meets
/// the box.
#[verifier::external_body]
fn tree_query(t: &StrokeTree, x1: i64, y1: i64, x2: i64, y2: i64) -> (ids: Vec<u64>)
    requires
        x1 <= x2,
        y1 <= y2,
    ensures
        query_answers(
            ids@,
            tree_contents(*t),
            Env { min_x: x1, min_y: y1, max_x: x2, max_y: y2 },
        ),
{
    t.tree
        .locate_in_envelope_intersecting(rstar::AABB::from_corners([x1, y1], [x2, y2]))
        .map(|e| e.data)
        .collect()
}

/// Relies on `rstar::RTree::remove`: it removes one element equal to the
/// given one and says so, or removes nothing when none is present.
#[verifier::external_body]
fn tree_remove(t: &mut StrokeTree, x1: i64, y1: i64, x2: i64, y2: i64, id: u64) -> (removed: bool)
    requires
        x1 <= x2,
        y1 <= y2,
    ensures
        tree_contents(*old(t)).count((x1, y1, x2, y2, id)) > 0 ==> removed && tree_contents(
            *final(t),
        ) == tree_contents(*old(t)).remove((x1, y1, x2, y2, id)),
        tree_contents(*old(t)).count((x1, y1, x2, y2, id)) == 0 ==> !removed && tree_contents(
            *final(t),
        ) == tree_contents(*old(t)),
{
    t.tree
        .remove(&rstar::primitives::GeomWithData::new(
            rstar::primitives::Rectangle::from_corners([x1, y1], [x2, y2]),
            id,
        ))
        .is_some()
}

/// The abstract content of one stroke: its points and style.
pub struct StrokeData {
    pub pts: Seq<Pt>,
    pub color: crate::stroke::Color,
    pub alpha: u8,
}

/// The abstraction of a concrete stroke.
pub open spec fn sdata(s: Stroke) -> StrokeData {
    StrokeData { pts: s.points@, color: s.color, alpha: s.alpha }
}

/// The abstraction of a stroke sequence.
pub open spec fn datas_of(ss: Seq<Stroke>) -> Seq<StrokeData> {
    ss.map_values(|s: Stroke| sdata(s))
}

/// A well-formed stroke abstraction: at least two points, all in range.
pub open spec fn data_valid(d: StrokeData) -> bool {
    d.pts.len() >= 2 && pts_in_range(d.pts)
}

/// The live strokes of a slot table, in slot order.
pub open spec fn live_data(slots: Seq<Option<Stroke>>) -> Seq<StrokeData>
    decreases slots.len(),
{
    if slots.len() == 0 {
        Seq::empty()
    } else {
        live_data(slots.drop_last()) + match slots.last() {
            Some(s) => seq![sdata(s)],
            None => Seq::empty(),
        }
    }
}

/// A slot table never holds more live strokes than slots.
pub proof fn lemma_live_data_len(slots: Seq<Option<Stroke>>)
    ensures
        live_data(slots).len() <= slots.len(),
    decreases slots.len(),
{
    if slots.len() > 0 {
        lemma_live_data_len(slots.drop_last());
    }
}

/// The count the tree must report for entry `e` given the slot table:
/// one exactly when `e` names a live slot by its envelope.
pub open spec fn expected_count(slots: Seq<Option<Stroke>>, e: (i64, i64, i64, i64, u64)) -> nat {
    if 0 <= e.4 < slots.len() && match slots[e.4 as int] {
        Some(s) => s.points@.len() >= 1 && entry_env(e) == env_of(s.points@),
        None => false,
    } {
        1
    } else {
        0
    }
}

/// The spatially indexed set of committed strokes.
pub struct SpatialDocument {
    slots: Vec<Option<Stroke>>,
    tree: StrokeTree,
}

impl SpatialDocument {
    /// The abstract value: the live strokes in slot order.
    pub closed spec fn view(&self) -> Seq<StrokeData> {
        live_data(self.slots@)
    }

    /// The document invariant: every live slot holds a committed stroke,
    /// and the tree holds exactly one entry per live slot, keyed by that
    /// stroke's envelope.
    pub closed spec fn wf(&self) -> bool {
        &&& forall|i: int|
            0 <= i < self.slots@.len() ==> match #[trigger] self.slots@[i] {
                Some(s) => stroke_valid(s),
                None => true,
            }
        &&& forall|e: (i64, i64, i64, i64, u64)|
            #[trigger] tree_contents(self.tree).count(e) == expected_count(self.slots@, e)
    }

    /// An empty document.
    pub fn new() -> (d: SpatialDocument)
        ensures
            d.wf(),
            d@ == Seq::<StrokeData>::empty(),
    {
        let d = SpatialDocument { slots: Vec::new(), tree: tree_new() };
        proof {
            assert(forall|e: (i64, i64, i64, i64, u64)|
                #[trigger] tree_contents(d.tree).count(e) == expected_count(d.slots@, e));
        }
        d
    }

    /// The number of live strokes.
    pub fn len(&self) -> (n: usize)
        requires
            self.wf(),
        ensures
            n == self@.len(),
    {
        proof {
            lemma_live_data_len(self.slots@);
            assert(self.slots@.subrange(0, 0) =~= Seq::<Option<Stroke>>::empty());
        }
        let mut n: usize = 0;
        let mut i: usize = 0;
        let total = self.slots.len();
        while i < total
            invariant
                total == self.slots@.len(),
                0 <= i <= total,
                n == live_data(self.slots@.subrange(0, i as int)).len(),
                n <= i,
            decreases total - i,
        {
            let ghost pre = self.slots@.subrange(0, i as int);
            proof {
                assert(self.slots@.subrange(0, i + 1).drop_last() =~= pre);
            }
            match &self.slots[i] {
                Some(_) => {
                    n = n + 1;
                },
                None => {},
            }
            i = i + 1;
        }
        proof {
            assert(self.slots@.subrange(0, total as int) =~= self.slots@);
        }
        n
    }

    /// Inserts a committed stroke, keyed by its envelope; the document
    /// gains exactly that stroke, after all present ones.
    pub fn insert(&mut self, s: Stroke)
        requires
            old(self).wf(),
            stroke_valid(s),
        ensures
            final(self).wf(),
            final(self)@ == old(self)@.push(sdata(s)),
    {
        let e = s.envelope();
        proof {
            crate::geom::lemma_env_of_bounds(s.points@, 0);
            crate::geom::lemma_env_of_range(s.points@);
        }
        let id = self.slots.len() as u64;
        let ghost old_slots = self.slots@;
        self.slots.push(Some(s));
        tree_insert(&mut self.tree, e.min_x, e.min_y, e.max_x, e.max_y, id);
        proof {
            assert(self.slots@.drop_last() =~= old_slots);
            assert forall|e2: (i64, i64, i64, i64, u64)|
                #[trigger] tree_contents(self.tree).count(e2) == expected_count(
                    self.slots@,
                    e2,
                ) by {
                if e2 == (e.min_x, e.min_y, e.max_x, e.max_y, id) {
                    assert(expected_count(old_slots, e2) == 0);
                } else {
                }
            }
        }
    }
}


/// Whether a stroke's envelope meets a query region.
pub open spec fn data_in_region(d: StrokeData, region: Env) -> bool {
    env_intersects(env_of(d.pts), region)
}

/// Whether some vertex of a stroke lies within distance `r` of `p`.
pub open spec fn data_near_pt(d: StrokeData, p: Pt, r: int) -> bool {
    exists|i: int| 0 <= i < d.pts.len() && dist2(#[trigger] d.pts[i], p) <= r * r
}

/// Pushing onto a sequence filters to pushing onto the filtered
/// sequence when the element passes, and changes nothing otherwise.
pub proof fn lemma_filter_push<A>(s: Seq<A>, pred: spec_fn(A) -> bool, x: A)
    ensures
        (s.push(x)).filter(pred) == if pred(x) {
            s.filter(pred).push(x)
        } else {
            s.filter(pred)
        },
{
    reveal(Seq::filter);
    assert((s.push(x)).drop_last() =~= s);
    assert((s.push(x)).last() == x);
}

/// A sequence whose members all pass the test filters to itself.
pub proof fn lemma_filter_all<A>(s: Seq<A>, pred: spec_fn(A) -> bool)
    requires
        forall|i: int| 0 <= i < s.len() ==> pred(#[trigger] s[i]),
    ensures
        s.filter(pred) == s,
    decreases s.len(),
{
    reveal(Seq::filter);
    if s.len() > 0 {
        lemma_filter_all(s.drop_last(), pred);
        assert(s.drop_last().push(s.last()) =~= s);
    }
}

/// Abstraction commutes with push.
proof fn lemma_datas_push(ss: Seq<Stroke>, s: Stroke)
    ensures
        datas_of(ss.push(s)) == datas_of(ss).push(sdata(s)),
{
    assert(datas_of(ss.push(s)) =~= datas_of(ss).push(sdata(s)));
}

/// An element-for-element copy of a stroke.
fn stroke_dup(s: &Stroke) -> (r: Stroke)
    ensures
        sdata(r) == sdata(*s),
{
    let mut pts: Vec<Pt> = Vec::new();
    let n = s.points.len();
    let mut i: usize = 0;
    while i < n
        invariant
            n == s.points@.len(),
            0 <= i <= n,
            pts@ == s.points@.subrange(0, i as int),
        decreases n - i,
    {
        pts.push(s.points[i]);
        proof {
            assert(pts@ =~= s.points@.subrange(0, i + 1));
        }
        i = i + 1;
    }
    proof {
        assert(pts@ =~= s.points@);
    }
    Stroke { points: pts, color: s.color, alpha: s.alpha }
}

/// Whether the slot-number list holds `x`.
fn ids_contain(ids: &Vec<u64>, x: u64) -> (r: bool)
    ensures
        r == ids@.contains(x),
{
    let n = ids.len();
    let mut k: usize = 0;
    while k < n
        invariant
            n == ids@.len(),
            0 <= k <= n,
            forall|k2: int| 0 <= k2 < k ==> ids@[k2] != x,
        decreases n - k,
    {
        if ids[k] == x {
            return true;
        }
        k = k + 1;
    }
    proof {
        assert(!ids@.contains(x)) by {
            if ids@.contains(x) {
                let w = choose|w: int| 0 <= w < ids@.len() && ids@[w] == x;
            }
        }
    }
    false
}

/// Takes the stroke out of slot `i`, leaving the slot empty.
fn slot_take(slots: &mut Vec<Option<Stroke>>, i: usize) -> (s: Option<Stroke>)
    requires
        i < old(slots)@.len(),
    ensures
        final(slots)@ == old(slots)@.update(i as int, None),
        s == old(slots)@[i as int],
{
    let s = slots.remove(i);
    slots.insert(i, None);
    proof {
        assert(slots@ =~= old(slots)@.update(i as int, None));
    }
    s
}


impl SpatialDocument {
    /// All strokes whose envelope intersects `region`, in slot order,
    /// as copies: exactly the live strokes passing the envelope test.
    pub fn query_range(&self, region: &Env) -> (out: Vec<Stroke>)
        requires
            self.wf(),
            crate::geom::env_wf(*region),
        ensures
            datas_of(out@) == self@.filter(|d: StrokeData| data_in_region(d, *region)),
            forall|k: int| 0 <= k < out@.len() ==> stroke_valid(#[trigger] out@[k]),
    {
        let ids = tree_query(&self.tree, region.min_x, region.min_y, region.max_x, region.max_y);
        let ghost pred = |d: StrokeData| data_in_region(d, *region);
        let mut out: Vec<Stroke> = Vec::new();
        let n = self.slots.len();
        let mut i: usize = 0;
        proof {
            assert(self.slots@.subrange(0, 0) =~= Seq::<Option<Stroke>>::empty());
            reveal(Seq::filter);
        }
        while i < n
            invariant
                self.wf(),
                crate::geom::env_wf(*region),
                n == self.slots@.len(),
                0 <= i <= n,
                query_answers(ids@, tree_contents(self.tree), *region),
                pred == |d: StrokeData| data_in_region(d, *region),
                datas_of(out@) == live_data(self.slots@.subrange(0, i as int)).filter(pred),
                forall|k: int| 0 <= k < out@.len() ==> stroke_valid(#[trigger] out@[k]),
            decreases n - i,
        {
            let ghost pre = self.slots@.subrange(0, i as int);
            let ghost post = self.slots@.subrange(0, i + 1);
            proof {
                assert(post.drop_last() =~= pre);
            }
            match &self.slots[i] {
                Some(s) => {
                    proof {
                        assert(live_data(post) == live_data(pre).push(sdata(*s)));
                        lemma_filter_push(live_data(pre), pred, sdata(*s));
                    }
                    let hit = ids_contain(&ids, i as u64);
                    if hit {
                        let e = s.envelope();
                        if env_intersects_ck(&e, region) {
                            let d = stroke_dup(s);
                            proof {
                                lemma_datas_push(out@, d);
                            }
                            out.push(d);
                        } else {
                            proof {
                                assert(!pred(sdata(*s)));
                            }
                        }
                    } else {
                        proof {
                            // Were the envelope to meet the region, the
                            // tree would hold a matching entry and the
                            // query would have returned this slot.
                            if data_in_region(sdata(*s), *region) {
                                let env = env_of(s.points@);
                                let entry = (env.min_x, env.min_y, env.max_x, env.max_y, i as u64);
                                assert(expected_count(self.slots@, entry) == 1);
                                assert(tree_contents(self.tree).count(entry) > 0);
                                assert(ids@.contains(i as u64));
                            }
                            assert(!pred(sdata(*s)));
                        }
                    }
                },
                None => {
                    proof {
                        assert(live_data(post) == live_data(pre));
                    }
                },
            }
            i = i + 1;
        }
        proof {
            assert(self.slots@.subrange(0, n as int) =~= self.slots@);
        }
        out
    }
}


/// Whether some vertex of the stroke lies within distance `r` of `p`.
fn stroke_near_pt(s: &Stroke, p: Pt, r: i64) -> (res: bool)
    requires
        pts_in_range(s.points@),
        crate::geom::pt_in_range(p),
        0 <= r <= COORD_LIMIT,
    ensures
        res == data_near_pt(sdata(*s), p, r as int),
{
    proof {
        crate::geom::lemma_mul_bound(r as int, r as int, COORD_LIMIT as int, COORD_LIMIT as int);
    }
    let rr: i128 = r as i128 * r as i128;
    let n = s.points.len();
    let mut i: usize = 0;
    while i < n
        invariant
            n == s.points@.len(),
            0 <= i <= n,
            pts_in_range(s.points@),
            crate::geom::pt_in_range(p),
            rr == (r as int) * (r as int),
            forall|k: int| 0 <= k < i ==> !(dist2(#[trigger] s.points@[k], p) <= (r as int) * (r as int)),
        decreases n - i,
    {
        if crate::geom::dist2_val(s.points[i], p) <= rr {
            proof {
                assert(dist2(sdata(*s).pts[i as int], p) <= (r as int) * (r as int));
            }
            return true;
        }
        i = i + 1;
    }
    false
}

impl SpatialDocument {
    /// Removes and returns all strokes whose envelope intersects
    /// `region`: the returned strokes are exactly the live strokes
    /// passing the envelope test, in slot order, and exactly the others
    /// stay.
    pub fn drain_range(&mut self, region: &Env) -> (out: Vec<Stroke>)
        requires
            old(self).wf(),
            crate::geom::env_wf(*region),
        ensures
            final(self).wf(),
            datas_of(out@) == old(self)@.filter(|d: StrokeData| data_in_region(d, *region)),
            final(self)@ == old(self)@.filter(|d: StrokeData| !data_in_region(d, *region)),
            forall|k: int| 0 <= k < out@.len() ==> stroke_valid(#[trigger] out@[k]),
    {
        let ids = tree_query(&self.tree, region.min_x, region.min_y, region.max_x, region.max_y);
        let ghost pred = |d: StrokeData| data_in_region(d, *region);
        let ghost npred = |d: StrokeData| !data_in_region(d, *region);
        let ghost slots0 = self.slots@;
        let ghost tree0 = tree_contents(self.tree);
        let mut out: Vec<Stroke> = Vec::new();
        let n = self.slots.len();
        let mut i: usize = 0;
        proof {
            assert(slots0.subrange(0, 0) =~= Seq::<Option<Stroke>>::empty());
            assert(self.slots@.subrange(0, 0) =~= Seq::<Option<Stroke>>::empty());
            reveal(Seq::filter);
        }
        while i < n
            invariant
                crate::geom::env_wf(*region),
                n == slots0.len(),
                n == self.slots@.len(),
                0 <= i <= n,
                pred == |d: StrokeData| data_in_region(d, *region),
                npred == |d: StrokeData| !data_in_region(d, *region),
                forall|k: int| i <= k < n ==> self.slots@[k] == slots0[k],
                forall|k: int|
                    0 <= k < n ==> match #[trigger] self.slots@[k] {
                        Some(s) => stroke_valid(s) && self.slots@[k] == slots0[k],
                        None => true,
                    },
                forall|e: (i64, i64, i64, i64, u64)|
                    #[trigger] tree_contents(self.tree).count(e) == expected_count(self.slots@, e),
                forall|e: (i64, i64, i64, i64, u64)|
                    #[trigger] tree0.count(e) == expected_count(slots0, e),
                query_answers(ids@, tree0, *region),
                datas_of(out@) == live_data(slots0.subrange(0, i as int)).filter(pred),
                live_data(self.slots@.subrange(0, i as int)) == live_data(
                    slots0.subrange(0, i as int),
                ).filter(npred),
                forall|k: int| 0 <= k < out@.len() ==> stroke_valid(#[trigger] out@[k]),
            decreases n - i,
        {
            let ghost pre0 = slots0.subrange(0, i as int);
            let ghost post0 = slots0.subrange(0, i + 1);
            proof {
                assert(post0.drop_last() =~= pre0);
            }
            let mut take_env: Option<Env> = None;
            match &self.slots[i] {
                Some(s) => {
                    proof {
                        assert(live_data(post0) == live_data(pre0).push(sdata(*s)));
                        lemma_filter_push(live_data(pre0), pred, sdata(*s));
                        lemma_filter_push(live_data(pre0), npred, sdata(*s));
                    }
                    let hit = ids_contain(&ids, i as u64);
                    if hit {
                        let e = s.envelope();
                        if env_intersects_ck(&e, region) {
                            take_env = Some(e);
                        }
                    } else {
                        proof {
                            if data_in_region(sdata(*s), *region) {
                                let env = env_of(s.points@);
                                let entry = (env.min_x, env.min_y, env.max_x, env.max_y, i as u64);
                                assert(expected_count(slots0, entry) == 1);
                                assert(tree0.count(entry) > 0);
                                assert(ids@.contains(i as u64));
                            }
                        }
                    }
                },
                None => {
                    proof {
                        assert(live_data(post0) == live_data(pre0));
                    }
                },
            }
            let ghost slots_before = self.slots@;
            match take_env {
                Some(e) => {
                    let taken = slot_take(&mut self.slots, i);
                    let _removed = tree_remove(&mut self.tree, e.min_x, e.min_y, e.max_x, e.max_y, i as u64);
                    proof {
                        let entry = (e.min_x, e.min_y, e.max_x, e.max_y, i as u64);
                        assert(expected_count(slots_before, entry) == 1);
                        assert forall|e2: (i64, i64, i64, i64, u64)|
                            #[trigger] tree_contents(self.tree).count(e2) == expected_count(
                                self.slots@,
                                e2,
                            ) by {
                            if e2 == entry {
                            } else {
                                assert(expected_count(self.slots@, e2) == expected_count(
                                    slots_before,
                                    e2,
                                ));
                            }
                        }
                        assert(self.slots@.subrange(0, i as int) =~= slots_before.subrange(
                            0,
                            i as int,
                        ));
                        assert(self.slots@.subrange(0, i + 1) =~= slots_before.subrange(
                            0,
                            i as int,
                        ).push(None));
                        assert(self.slots@.subrange(0, i + 1).drop_last() =~= self.slots@.subrange(
                            0,
                            i as int,
                        ));
                        assert(self.slots@.subrange(0, i + 1).last() is None);
                        assert(live_data(self.slots@.subrange(0, i + 1)) == live_data(
                            self.slots@.subrange(0, i as int),
                        ));
                    }
                    match taken {
                        Some(st) => {
                            proof {
                                lemma_datas_push(out@, st);
                            }
                            out.push(st);
                        },
                        None => {
                            proof {
                                assert(false);
                            }
                        },
                    }
                },
                None => {
                    proof {
                        assert(self.slots@.subrange(0, i + 1) =~= slots_before.subrange(0, i + 1));
                        assert(self.slots@.subrange(0, i + 1).drop_last() =~= self.slots@.subrange(
                            0,
                            i as int,
                        ));
                    }
                },
            }
            i = i + 1;
        }
        proof {
            assert(slots0.subrange(0, n as int) =~= slots0);
            assert(self.slots@.subrange(0, n as int) =~= self.slots@);
        }
        out
    }

    /// Removes and returns every stroke having at least one vertex
    /// within Euclidean distance `radius` of `point`, in slot order;
    /// exactly the others stay.
    pub fn remove_within_radius(&mut self, point: Pt, radius: i64) -> (out: Vec<Stroke>)
        requires
            old(self).wf(),
            crate::geom::pt_in_range(point),
            0 <= radius <= COORD_LIMIT,
        ensures
            final(self).wf(),
            datas_of(out@) == old(self)@.filter(
                |d: StrokeData| data_near_pt(d, point, radius as int),
            ),
            final(self)@ == old(self)@.filter(
                |d: StrokeData| !data_near_pt(d, point, radius as int),
            ),
            forall|k: int| 0 <= k < out@.len() ==> stroke_valid(#[trigger] out@[k]),
    {
        let ghost pred = |d: StrokeData| data_near_pt(d, point, radius as int);
        let ghost npred = |d: StrokeData| !data_near_pt(d, point, radius as int);
        let ghost slots0 = self.slots@;
        let mut out: Vec<Stroke> = Vec::new();
        let n = self.slots.len();
        let mut i: usize = 0;
        proof {
            assert(slots0.subrange(0, 0) =~= Seq::<Option<Stroke>>::empty());
            assert(self.slots@.subrange(0, 0) =~= Seq::<Option<Stroke>>::empty());
            reveal(Seq::filter);
        }
        while i < n
            invariant
                crate::geom::pt_in_range(point),
                0 <= radius <= COORD_LIMIT,
                n == slots0.len(),
                n == self.slots@.len(),
                0 <= i <= n,
                pred == |d: StrokeData| data_near_pt(d, point, radius as int),
                npred == |d: StrokeData| !data_near_pt(d, point, radius as int),
                forall|k: int| i <= k < n ==> self.slots@[k] == slots0[k],
                forall|k: int|
                    0 <= k < n ==> match #[trigger] self.slots@[k] {
                        Some(s) => stroke_valid(s) && self.slots@[k] == slots0[k],
                        None => true,
                    },
                forall|e: (i64, i64, i64, i64, u64)|
                    #[trigger] tree_contents(self.tree).count(e) == expected_count(self.slots@, e),
                datas_of(out@) == live_data(slots0.subrange(0, i as int)).filter(pred),
                live_data(self.slots@.subrange(0, i as int)) == live_data(
                    slots0.subrange(0, i as int),
                ).filter(npred),
                forall|k: int| 0 <= k < out@.len() ==> stroke_valid(#[trigger] out@[k]),
            decreases n - i,
        {
            let ghost pre0 = slots0.subrange(0, i as int);
            let ghost post0 = slots0.subrange(0, i + 1);
            proof {
                assert(post0.drop_last() =~= pre0);
            }
            let mut take_env: Option<Env> = None;
            match &self.slots[i] {
                Some(s) => {
                    proof {
                        assert(live_data(post0) == live_data(pre0).push(sdata(*s)));
                        lemma_filter_push(live_data(pre0), pred, sdata(*s));
                        lemma_filter_push(live_data(pre0), npred, sdata(*s));
                    }
                    if stroke_near_pt(s, point, radius) {
                        take_env = Some(s.envelope());
                    }
                },
                None => {
                    proof {
                        assert(live_data(post0) == live_data(pre0));
                    }
                },
            }
            let ghost slots_before = self.slots@;
            match take_env {
                Some(e) => {
                    let taken = slot_take(&mut self.slots, i);
                    let _removed = tree_remove(&mut self.tree, e.min_x, e.min_y, e.max_x, e.max_y, i as u64);
                    proof {
                        let entry = (e.min_x, e.min_y, e.max_x, e.max_y, i as u64);
                        assert(expected_count(slots_before, entry) == 1);
                        assert forall|e2: (i64, i64, i64, i64, u64)|
                            #[trigger] tree_contents(self.tree).count(e2) == expected_count(
                                self.slots@,
                                e2,
                            ) by {
                            if e2 == entry {
                            } else {
                                assert(expected_count(self.slots@, e2) == expected_count(
                                    slots_before,
                                    e2,
                                ));
                            }
                        }
                        assert(self.slots@.subrange(0, i as int) =~= slots_before.subrange(
                            0,
                            i as int,
                        ));
                        assert(self.slots@.subrange(0, i + 1) =~= slots_before.subrange(
                            0,
                            i as int,
                        ).push(None));
                        assert(self.slots@.subrange(0, i + 1).drop_last() =~= self.slots@.subrange(
                            0,
                            i as int,
                        ));
                        assert(self.slots@.subrange(0, i + 1).last() is None);
                        assert(live_data(self.slots@.subrange(0, i + 1)) == live_data(
                            self.slots@.subrange(0, i as int),
                        ));
                    }
                    match taken {
                        Some(st) => {
                            proof {
                                lemma_datas_push(out@, st);
                            }
                            out.push(st);
                        },
                        None => {
                            proof {
                                assert(false);
                            }
                        },
                    }
                },
                None => {
                    proof {
                        assert(self.slots@.subrange(0, i + 1) =~= slots_before.subrange(0, i + 1));
                        assert(self.slots@.subrange(0, i + 1).drop_last() =~= self.slots@.subrange(
                            0,
                            i as int,
                        ));
                    }
                },
            }
            i = i + 1;
        }
        proof {
            assert(slots0.subrange(0, n as int) =~= slots0);
            assert(self.slots@.subrange(0, n as int) =~= self.slots@);
        }
        out
    }
}


/// Membership in a filtered sequence is membership plus the test.
pub proof fn lemma_filter_membership<A>(s: Seq<A>, pred: spec_fn(A) -> bool, x: A)
    ensures
        s.filter(pred).contains(x) <==> s.contains(x) && pred(x),
    decreases s.len(),
{
    reveal(Seq::filter);
    if s.len() > 0 {
        lemma_filter_membership(s.drop_last(), pred, x);
        assert(s.contains(x) <==> s.drop_last().contains(x) || s.last() == x) by {
            if s.contains(x) {
                let w = choose|w: int| 0 <= w < s.len() && s[w] == x;
                if w < s.len() - 1 {
                    assert(s.drop_last()[w] == x);
                }
            }
            if s.drop_last().contains(x) {
                let w = choose|w: int| 0 <= w < s.drop_last().len() && s.drop_last()[w] == x;
                assert(s[w] == x);
            }
        }
        if pred(s.last()) {
            let f = s.drop_last().filter(pred);
            assert(s.filter(pred).contains(x) <==> f.contains(x) || s.last() == x) by {
                if s.filter(pred).contains(x) {
                    let w = choose|w: int|
                        0 <= w < s.filter(pred).len() && s.filter(pred)[w] == x;
                    if w < f.len() {
                        assert(f[w] == x);
                    }
                }
                if f.contains(x) {
                    let w = choose|w: int| 0 <= w < f.len() && f[w] == x;
                    assert(s.filter(pred)[w] == x);
                }
                if s.last() == x {
                    assert(s.filter(pred).last() == x);
                }
            }
        }
    }
}

/// A range query answers exactly the strokes of the document whose
/// envelope intersects the region: for any finite set of strokes held
/// by the document, the result holds a stroke if and only if the
/// document holds it and its envelope meets the region.
pub proof fn lemma_query_membership(doc: Seq<StrokeData>, region: Env, d: StrokeData)
    ensures
        doc.filter(|d2: StrokeData| data_in_region(d2, region)).contains(d) <==> doc.contains(d)
            && env_intersects(env_of(d.pts), region),
{
    lemma_filter_membership(doc, |d2: StrokeData| data_in_region(d2, region), d);
}

} // verus!
