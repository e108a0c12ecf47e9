//! Exact integer plane geometry: points, axis-aligned envelopes, segment
//! intersection by orientation tests, and point-to-segment distance
//! comparisons, all free of rounding.

use vstd::prelude::*;

verus! {

/// Largest magnitude a document-space coordinate may take. Keeping
/// coordinates within this bound lets every geometric predicate below be
/// computed exactly in 128-bit arithmetic, and keeps the spatial index's
/// own 64-bit envelope arithmetic in range: a full-canvas envelope then
/// has sides up to 2^30 and area up to 2^60, so the sums of a handful of
/// areas that an R-tree computes while choosing and splitting nodes stay
/// below 2^63.
pub const COORD_LIMIT: i64 = 0x2000_0000;

/// A point of the document plane (or of the screen, for in-progress
/// strokes), with integer coordinates.
#[derive(Clone, Copy, Debug, PartialEq, Eq, Structural)]
pub struct Pt {
    pub x: i64,
    pub y: i64,
}

/// An axis-aligned box, closed on all sides; the index key of a stroke.
#[derive(Clone, Copy, Debug, PartialEq, Eq, Structural)]
pub struct Env {
    pub min_x: i64,
    pub min_y: i64,
    pub max_x: i64,
    pub max_y: i64,
}

/// A coordinate that the document model can hold.
pub open spec fn coord_in_range(c: int) -> bool {
    -COORD_LIMIT <= c <= COORD_LIMIT
}

/// A point whose coordinates the document model can hold.
pub open spec fn pt_in_range(p: Pt) -> bool {
    coord_in_range(p.x as int) && coord_in_range(p.y as int)
}

/// Twice the signed area of the triangle `a`, `b`, `c`: positive when the
/// three points turn counter-clockwise, zero when they are collinear.
pub open spec fn orient(a: Pt, b: Pt, c: Pt) -> int {
    (b.x - a.x) * (c.y - a.y) - (b.y - a.y) * (c.x - a.x)
}

/// Whether `p` lies inside the axis-aligned box spanned by `a` and `b`.
pub open spec fn pt_in_box(p: Pt, a: Pt, b: Pt) -> bool {
    &&& (if a.x <= b.x { a.x <= p.x <= b.x } else { b.x <= p.x <= a.x })
    &&& (if a.y <= b.y { a.y <= p.y <= b.y } else { b.y <= p.y <= a.y })
}

/// Whether the closed segments `a`-`b` and `c`-`d` share at least one
/// point. Shared endpoints and collinear overlap count as intersecting.
/// This is the classical characterization by orientation signs, with the
/// collinear cases resolved by box tests.
pub open spec fn segs_intersect(a: Pt, b: Pt, c: Pt, d: Pt) -> bool {
    let o1 = orient(a, b, c);
    let o2 = orient(a, b, d);
    let o3 = orient(c, d, a);
    let o4 = orient(c, d, b);
    ||| (((o1 > 0 && o2 < 0) || (o1 < 0 && o2 > 0)) && ((o3 > 0 && o4 < 0) || (o3 < 0 && o4
        > 0)))
    ||| (o1 == 0 && pt_in_box(c, a, b))
    ||| (o2 == 0 && pt_in_box(d, a, b))
    ||| (o3 == 0 && pt_in_box(a, c, d))
    ||| (o4 == 0 && pt_in_box(b, c, d))
}

/// Squared Euclidean distance between two points.
pub open spec fn dist2(p: Pt, q: Pt) -> int {
    (p.x - q.x) * (p.x - q.x) + (p.y - q.y) * (p.y - q.y)
}

/// Whether the Euclidean distance from `p` to the closed segment `a`-`b`
/// is at most `r`, stated without square roots: the nearest point of the
/// segment is an endpoint when the projection of `p` falls outside it,
/// and the foot of the perpendicular otherwise.
pub open spec fn pt_seg_within(p: Pt, a: Pt, b: Pt, r: int) -> bool {
    let wx = b.x - a.x;
    let wy = b.y - a.y;
    let vx = p.x - a.x;
    let vy = p.y - a.y;
    let dot = vx * wx + vy * wy;
    let ww = wx * wx + wy * wy;
    let cross = vx * wy - vy * wx;
    if dot <= 0 {
        dist2(p, a) <= r * r
    } else if dot >= ww {
        dist2(p, b) <= r * r
    } else {
        cross * cross <= r * r * ww
    }
}

/// Whether the minimum distance between the closed segments `a`-`b` and
/// `c`-`d` is at most `r`: they intersect, or the distance is attained at
/// one of the four endpoints.
pub open spec fn seg_seg_within(a: Pt, b: Pt, c: Pt, d: Pt, r: int) -> bool {
    ||| segs_intersect(a, b, c, d)
    ||| pt_seg_within(a, c, d, r)
    ||| pt_seg_within(b, c, d, r)
    ||| pt_seg_within(c, a, b, r)
    ||| pt_seg_within(d, a, b, r)
}

/// A well-formed envelope: lower corner below upper corner.
pub open spec fn env_wf(e: Env) -> bool {
    e.min_x <= e.max_x && e.min_y <= e.max_y
}

/// Whether two closed envelopes share at least one point.
pub open spec fn env_intersects(a: Env, b: Env) -> bool {
    a.min_x <= b.max_x && a.max_x >= b.min_x && a.min_y <= b.max_y && a.max_y >= b.min_y
}

/// The envelope of a non-empty point sequence: the componentwise minimum
/// and maximum over all points.
pub open spec fn env_of(pts: Seq<Pt>) -> Env
    recommends
        pts.len() >= 1,
    decreases pts.len(),
{
    if pts.len() <= 1 {
        Env { min_x: pts[0].x, min_y: pts[0].y, max_x: pts[0].x, max_y: pts[0].y }
    } else {
        let e = env_of(pts.drop_last());
        let p = pts.last();
        Env {
            min_x: if p.x < e.min_x { p.x } else { e.min_x },
            min_y: if p.y < e.min_y { p.y } else { e.min_y },
            max_x: if p.x > e.max_x { p.x } else { e.max_x },
            max_y: if p.y > e.max_y { p.y } else { e.max_y },
        }
    }
}

/// The envelope of a non-empty point sequence bounds every point of it.
pub proof fn lemma_env_of_bounds(pts: Seq<Pt>, i: int)
    requires
        pts.len() >= 1,
        0 <= i < pts.len(),
    ensures
        env_of(pts).min_x <= pts[i].x <= env_of(pts).max_x,
        env_of(pts).min_y <= pts[i].y <= env_of(pts).max_y,
        env_wf(env_of(pts)),
    decreases pts.len(),
{
    if pts.len() > 1 {
        if i < pts.len() - 1 {
            lemma_env_of_bounds(pts.drop_last(), i);
        } else {
            lemma_env_of_bounds(pts.drop_last(), 0);
        }
    }
}

/// The envelope of in-range points has in-range corners.
pub proof fn lemma_env_of_range(pts: Seq<Pt>)
    requires
        pts.len() >= 1,
        forall|i: int| 0 <= i < pts.len() ==> pt_in_range(#[trigger] pts[i]),
    ensures
        coord_in_range(env_of(pts).min_x as int),
        coord_in_range(env_of(pts).min_y as int),
        coord_in_range(env_of(pts).max_x as int),
        coord_in_range(env_of(pts).max_y as int),
    decreases pts.len(),
{
    if pts.len() > 1 {
        lemma_env_of_range(pts.drop_last());
    }
}

/// Computes `orient(a, b, c)` exactly.
fn orient_val(a: Pt, b: Pt, c: Pt) -> (v: i128)
    requires
        pt_in_range(a),
        pt_in_range(b),
        pt_in_range(c),
    ensures
        v == orient(a, b, c),
{
    let abx: i128 = b.x as i128 - a.x as i128;
    let aby: i128 = b.y as i128 - a.y as i128;
    let acx: i128 = c.x as i128 - a.x as i128;
    let acy: i128 = c.y as i128 - a.y as i128;
    proof {
        lemma_mul_bound(abx as int, acy as int, 0x8000_0000, 0x8000_0000);
        lemma_mul_bound(aby as int, acx as int, 0x8000_0000, 0x8000_0000);
    }
    abx * acy - aby * acx
}

/// `|x| <= bx` and `|y| <= by` bound the product `x * y` by `bx * by`.
pub proof fn lemma_mul_bound(x: int, y: int, bx: int, by: int)
    by (nonlinear_arith)
    requires
        -bx <= x <= bx,
        -by <= y <= by,
        0 <= bx,
        0 <= by,
    ensures
        -(bx * by) <= x * y <= bx * by,
{
}

/// Decides whether `p` lies in the box spanned by `a` and `b`.
fn pt_in_box_ck(p: Pt, a: Pt, b: Pt) -> (r: bool)
    ensures
        r == pt_in_box(p, a, b),
{
    let x_ok = if a.x <= b.x {
        a.x <= p.x && p.x <= b.x
    } else {
        b.x <= p.x && p.x <= a.x
    };
    let y_ok = if a.y <= b.y {
        a.y <= p.y && p.y <= b.y
    } else {
        b.y <= p.y && p.y <= a.y
    };
    x_ok && y_ok
}

/// Decides exact intersection of the closed segments `a`-`b` and `c`-`d`.
pub fn seg_intersects(a: Pt, b: Pt, c: Pt, d: Pt) -> (r: bool)
    requires
        pt_in_range(a),
        pt_in_range(b),
        pt_in_range(c),
        pt_in_range(d),
    ensures
        r == segs_intersect(a, b, c, d),
{
    let o1 = orient_val(a, b, c);
    let o2 = orient_val(a, b, d);
    let o3 = orient_val(c, d, a);
    let o4 = orient_val(c, d, b);
    if ((o1 > 0 && o2 < 0) || (o1 < 0 && o2 > 0)) && ((o3 > 0 && o4 < 0) || (o3 < 0 && o4 > 0)) {
        return true;
    }
    if o1 == 0 && pt_in_box_ck(c, a, b) {
        return true;
    }
    if o2 == 0 && pt_in_box_ck(d, a, b) {
        return true;
    }
    if o3 == 0 && pt_in_box_ck(a, c, d) {
        return true;
    }
    if o4 == 0 && pt_in_box_ck(b, c, d) {
        return true;
    }
    false
}

/// Computes `dist2(p, q)` exactly.
pub fn dist2_val(p: Pt, q: Pt) -> (v: i128)
    requires
        pt_in_range(p),
        pt_in_range(q),
    ensures
        v == dist2(p, q),
{
    let dx: i128 = p.x as i128 - q.x as i128;
    let dy: i128 = p.y as i128 - q.y as i128;
    proof {
        lemma_mul_bound(dx as int, dx as int, 0x8000_0000, 0x8000_0000);
        lemma_mul_bound(dy as int, dy as int, 0x8000_0000, 0x8000_0000);
    }
    dx * dx + dy * dy
}

/// Decides whether `p` lies within distance `r` of the segment `a`-`b`.
pub fn pt_seg_within_ck(p: Pt, a: Pt, b: Pt, r: i64) -> (res: bool)
    requires
        pt_in_range(p),
        pt_in_range(a),
        pt_in_range(b),
        0 <= r <= COORD_LIMIT,
    ensures
        res == pt_seg_within(p, a, b, r as int),
{
    let wx: i128 = b.x as i128 - a.x as i128;
    let wy: i128 = b.y as i128 - a.y as i128;
    let vx: i128 = p.x as i128 - a.x as i128;
    let vy: i128 = p.y as i128 - a.y as i128;
    proof {
        lemma_mul_bound(vx as int, wx as int, 0x8000_0000, 0x8000_0000);
        lemma_mul_bound(vy as int, wy as int, 0x8000_0000, 0x8000_0000);
        lemma_mul_bound(wx as int, wx as int, 0x8000_0000, 0x8000_0000);
        lemma_mul_bound(wy as int, wy as int, 0x8000_0000, 0x8000_0000);
        lemma_mul_bound(vx as int, wy as int, 0x8000_0000, 0x8000_0000);
        lemma_mul_bound(vy as int, wx as int, 0x8000_0000, 0x8000_0000);
    }
    let dot: i128 = vx * wx + vy * wy;
    let ww: i128 = wx * wx + wy * wy;
    proof {
        lemma_mul_bound(r as int, r as int, COORD_LIMIT as int, COORD_LIMIT as int);
    }
    let rr: i128 = r as i128 * r as i128;
    if dot <= 0 {
        dist2_val(p, a) <= rr
    } else if dot >= ww {
        dist2_val(p, b) <= rr
    } else {
        let cross: i128 = vx * wy - vy * wx;
        proof {
            lemma_mul_bound(cross as int, cross as int, 0x8000_0000_0000_0000, 0x8000_0000_0000_0000);
            lemma_mul_bound(rr as int, ww as int, 0x1000_0000_0000_0000, 0x8000_0000_0000_0000);
        }
        cross * cross <= rr * ww
    }
}

/// Decides whether the minimum distance between segments `a`-`b` and
/// `c`-`d` is at most `r`.
pub fn seg_seg_within_ck(a: Pt, b: Pt, c: Pt, d: Pt, r: i64) -> (res: bool)
    requires
        pt_in_range(a),
        pt_in_range(b),
        pt_in_range(c),
        pt_in_range(d),
        0 <= r <= COORD_LIMIT,
    ensures
        res == seg_seg_within(a, b, c, d, r as int),
{
    seg_intersects(a, b, c, d) || pt_seg_within_ck(a, c, d, r) || pt_seg_within_ck(b, c, d, r)
        || pt_seg_within_ck(c, a, b, r) || pt_seg_within_ck(d, a, b, r)
}

/// Decides whether two well-formed envelopes share a point.
pub fn env_intersects_ck(a: &Env, b: &Env) -> (r: bool)
    ensures
        r == env_intersects(*a, *b),
{
    a.min_x <= b.max_x && a.max_x >= b.min_x && a.min_y <= b.max_y && a.max_y >= b.min_y
}

/// Computes the envelope of a non-empty point slice.
pub fn envelope_of_points(pts: &Vec<Pt>) -> (e: Env)
    requires
        pts@.len() >= 1,
    ensures
        e == env_of(pts@),
{
    let mut e = Env { min_x: pts[0].x, min_y: pts[0].y, max_x: pts[0].x, max_y: pts[0].y };
    let mut i: usize = 1;
    assert(pts@.subrange(0, 1) =~= seq![pts@[0]]);
    while i < pts.len()
        invariant
            1 <= i <= pts@.len(),
            e == env_of(pts@.subrange(0, i as int)),
        decreases pts@.len() - i,
    {
        let p = pts[i];
        let ghost pre = pts@.subrange(0, i as int);
        e = Env {
            min_x: if p.x < e.min_x { p.x } else { e.min_x },
            min_y: if p.y < e.min_y { p.y } else { e.min_y },
            max_x: if p.x > e.max_x { p.x } else { e.max_x },
            max_y: if p.y > e.max_y { p.y } else { e.max_y },
        };
        proof {
            let post = pts@.subrange(0, i + 1);
            assert(post.drop_last() =~= pre);
            assert(post.last() == p);
        }
        i = i + 1;
    }
    proof {
        assert(pts@.subrange(0, pts@.len() as int) =~= pts@);
    }
    e
}


/// The smaller x coordinate of a segment's endpoints.
pub open spec fn seg_xmin(a: Pt, b: Pt) -> int {
    if a.x <= b.x {
        a.x as int
    } else {
        b.x as int
    }
}

/// The larger x coordinate of a segment's endpoints.
pub open spec fn seg_xmax(a: Pt, b: Pt) -> int {
    if a.x <= b.x {
        b.x as int
    } else {
        a.x as int
    }
}

/// A convex combination with integer weights stays between the bounds
/// of its endpoints, in scaled form.
proof fn lemma_convex_bound(lo: int, hi: int, u: int, v: int, s: int, big: int)
    by (nonlinear_arith)
    requires
        0 < big,
        0 <= s <= big,
        lo <= u <= hi,
        lo <= v <= hi,
    ensures
        lo * big <= u * (big - s) + v * s <= hi * big,
{
}

/// Scaling by a positive factor preserves order, backwards.
proof fn lemma_cancel_factor(x: int, y: int, big: int)
    by (nonlinear_arith)
    requires
        0 < big,
        x * big <= y * big,
    ensures
        x <= y,
{
}

/// Intersecting segments overlap in x: some shared point projects into
/// both x-intervals. The proper-crossing case goes through the scaled
/// crossing point `a + (o3 / (o3 - o4)) * (b - a)`, which the two
/// parameterizations place in both intervals.
#[verifier::rlimit(60)]
pub proof fn lemma_segs_intersect_xoverlap(a: Pt, b: Pt, c: Pt, d: Pt)
    requires
        segs_intersect(a, b, c, d),
    ensures
        seg_xmin(a, b) <= seg_xmax(c, d),
        seg_xmin(c, d) <= seg_xmax(a, b),
{
    let o1 = orient(a, b, c);
    let o2 = orient(a, b, d);
    let o3 = orient(c, d, a);
    let o4 = orient(c, d, b);
    if o1 == 0 && pt_in_box(c, a, b) {
    } else if o2 == 0 && pt_in_box(d, a, b) {
    } else if o3 == 0 && pt_in_box(a, c, d) {
    } else if o4 == 0 && pt_in_box(b, c, d) {
    } else {
        // Proper crossing: o1, o2 have opposite signs and so do o3, o4.
        assert(o1 - o2 == -(o3 - o4)) by (nonlinear_arith)
            requires
                o1 == (b.x - a.x) * (c.y - a.y) - (b.y - a.y) * (c.x - a.x),
                o2 == (b.x - a.x) * (d.y - a.y) - (b.y - a.y) * (d.x - a.x),
                o3 == (d.x - c.x) * (a.y - c.y) - (d.y - c.y) * (a.x - c.x),
                o4 == (d.x - c.x) * (b.y - c.y) - (d.y - c.y) * (b.x - c.x),
        ;
        // The crossing identity: both parameterizations scale to the
        // same x numerator. Translated so that c is the origin, it
        // reduces to o3 * bx - o4 * ax == -(o1 * p).
        let axc = a.x - c.x;
        let ayc = a.y - c.y;
        let bxc = b.x - c.x;
        let byc = b.y - c.y;
        let pp = d.x - c.x;
        let qq = d.y - c.y;
        assert(o3 == pp * ayc - qq * axc && o4 == pp * byc - qq * bxc);
        assert(o1 == axc * byc - ayc * bxc) by (nonlinear_arith)
            requires
                o1 == (b.x - a.x) * (c.y - a.y) - (b.y - a.y) * (c.x - a.x),
                axc == a.x - c.x,
                ayc == a.y - c.y,
                bxc == b.x - c.x,
                byc == b.y - c.y,
        ;
        assert(o3 * bxc - o4 * axc == -(o1 * pp)) by (nonlinear_arith)
            requires
                o3 == pp * ayc - qq * axc,
                o4 == pp * byc - qq * bxc,
                o1 == axc * byc - ayc * bxc,
        ;
        assert(a.x * (o3 - o4) + o3 * (b.x - a.x) == c.x * (o3 - o4) - o1 * (d.x - c.x))
            by (nonlinear_arith)
            requires
                o3 * bxc - o4 * axc == -(o1 * pp),
                axc == a.x - c.x,
                bxc == b.x - c.x,
                pp == d.x - c.x,
        ;
        let idl = a.x * (o3 - o4) + o3 * (b.x - a.x);
        if o3 > 0 && o4 < 0 {
            let big = o3 - o4;
            let xn = a.x * (big - o3) + b.x * o3;
            assert(xn == idl) by (nonlinear_arith)
                requires
                    big == o3 - o4,
                    xn == a.x * (big - o3) + b.x * o3,
                    idl == a.x * (o3 - o4) + o3 * (b.x - a.x),
            ;
            lemma_convex_bound(seg_xmin(a, b), seg_xmax(a, b), a.x as int, b.x as int, o3, big);
            // On the other segment the parameter is -o1 out of big.
            assert(o1 < 0 && o2 > 0);
            assert(xn == c.x * (big - (-o1)) + d.x * (-o1)) by (nonlinear_arith)
                requires
                    big == o3 - o4,
                    xn == c.x * (o3 - o4) - o1 * (d.x - c.x),
            ;
            lemma_convex_bound(seg_xmin(c, d), seg_xmax(c, d), c.x as int, d.x as int, -o1, big);
            lemma_cancel_factor(seg_xmin(a, b), seg_xmax(c, d), big);
            lemma_cancel_factor(seg_xmin(c, d), seg_xmax(a, b), big);
        } else {
            assert(o3 < 0 && o4 > 0);
            let big = o4 - o3;
            let xn = a.x * (big - (-o3)) + b.x * (-o3);
            assert(xn == -idl) by (nonlinear_arith)
                requires
                    big == o4 - o3,
                    xn == a.x * (big - (-o3)) + b.x * (-o3),
                    idl == a.x * (o3 - o4) + o3 * (b.x - a.x),
            ;
            lemma_convex_bound(seg_xmin(a, b), seg_xmax(a, b), a.x as int, b.x as int, -o3, big);
            assert(o1 > 0 && o2 < 0);
            assert(xn == c.x * (big - o1) + d.x * o1) by (nonlinear_arith)
                requires
                    big == o4 - o3,
                    xn == -(c.x * (o3 - o4) - o1 * (d.x - c.x)),
            ;
            lemma_convex_bound(seg_xmin(c, d), seg_xmax(c, d), c.x as int, d.x as int, o1, big);
            lemma_cancel_factor(seg_xmin(a, b), seg_xmax(c, d), big);
            lemma_cancel_factor(seg_xmin(c, d), seg_xmax(a, b), big);
        }
    }
}

/// A point within distance `r` of a segment projects into the
/// segment's x-interval grown by `r` on both sides.
pub proof fn lemma_pt_seg_within_xrange(p: Pt, u: Pt, v: Pt, r: int)
    requires
        pt_seg_within(p, u, v, r),
        r >= 0,
    ensures
        seg_xmin(u, v) - r <= p.x <= seg_xmax(u, v) + r,
{
    let wx = v.x - u.x;
    let wy = v.y - u.y;
    let vx = p.x - u.x;
    let vy = p.y - u.y;
    let dot = vx * wx + vy * wy;
    let ww = wx * wx + wy * wy;
    let cross = vx * wy - vy * wx;
    if dot <= 0 {
        assert(-r <= p.x - u.x <= r) by (nonlinear_arith)
            requires
                (p.x - u.x) * (p.x - u.x) + (p.y - u.y) * (p.y - u.y) <= r * r,
                r >= 0,
        ;
    } else if dot >= ww {
        assert(-r <= p.x - v.x <= r) by (nonlinear_arith)
            requires
                (p.x - v.x) * (p.x - v.x) + (p.y - v.y) * (p.y - v.y) <= r * r,
                r >= 0,
        ;
    } else {
        // The perpendicular foot: p.x scaled by ww differs from a
        // convex combination of the endpoints' x by wy * cross, whose
        // square is at most (r * ww)^2.
        assert(ww > 0) by (nonlinear_arith)
            requires
                ww == wx * wx + wy * wy,
                0 < dot,
                dot == vx * wx + vy * wy,
        ;
        let m = u.x * ww + dot * wx;
        assert(p.x * ww - m == wy * cross) by (nonlinear_arith)
            requires
                m == u.x * ww + dot * wx,
                ww == wx * wx + wy * wy,
                dot == vx * wx + vy * wy,
                cross == vx * wy - vy * wx,
                vx == p.x - u.x,
        ;
        assert((wy * cross) * (wy * cross) <= (r * ww) * (r * ww)) by (nonlinear_arith)
            requires
                ww == wx * wx + wy * wy,
                cross * cross <= r * r * ww,
                r >= 0,
        ;
        assert(-(r * ww) <= wy * cross <= r * ww) by (nonlinear_arith)
            requires
                (wy * cross) * (wy * cross) <= (r * ww) * (r * ww),
                r >= 0,
                ww > 0,
        ;
        lemma_convex_bound(seg_xmin(u, v), seg_xmax(u, v), u.x as int, v.x as int, dot, ww);
        assert(m == u.x * (ww - dot) + v.x * dot) by (nonlinear_arith)
            requires
                m == u.x * ww + dot * wx,
                wx == v.x - u.x,
        ;
        assert((seg_xmin(u, v) - r) * ww <= p.x * ww) by (nonlinear_arith)
            requires
                seg_xmin(u, v) * ww <= m,
                -(r * ww) <= p.x * ww - m,
        ;
        assert(p.x * ww <= (seg_xmax(u, v) + r) * ww) by (nonlinear_arith)
            requires
                m <= seg_xmax(u, v) * ww,
                p.x * ww - m <= r * ww,
        ;
        lemma_cancel_factor(seg_xmin(u, v) - r, p.x as int, ww);
        lemma_cancel_factor(p.x as int, seg_xmax(u, v) + r, ww);
    }
}

/// Segments within distance `r` of one another overlap in x once one
/// of the intervals is grown by `r`: the basis of the segment sweep.
pub proof fn lemma_seg_seg_within_xoverlap(a: Pt, b: Pt, c: Pt, d: Pt, r: int)
    requires
        seg_seg_within(a, b, c, d, r),
        r >= 0,
    ensures
        seg_xmin(a, b) <= seg_xmax(c, d) + r,
        seg_xmin(c, d) - r <= seg_xmax(a, b),
{
    if segs_intersect(a, b, c, d) {
        lemma_segs_intersect_xoverlap(a, b, c, d);
    } else if pt_seg_within(a, c, d, r) {
        lemma_pt_seg_within_xrange(a, c, d, r);
    } else if pt_seg_within(b, c, d, r) {
        lemma_pt_seg_within_xrange(b, c, d, r);
    } else if pt_seg_within(c, a, b, r) {
        lemma_pt_seg_within_xrange(c, a, b, r);
    } else {
        lemma_pt_seg_within_xrange(d, a, b, r);
    }
}


/// The reflection of a point across the main diagonal.
pub open spec fn transpose_pt(p: Pt) -> Pt {
    Pt { x: p.y, y: p.x }
}

/// Reflecting all four points negates every orientation and so leaves
/// segment intersection unchanged.
proof fn lemma_segs_intersect_transpose(a: Pt, b: Pt, c: Pt, d: Pt)
    requires
        segs_intersect(a, b, c, d),
    ensures
        segs_intersect(transpose_pt(a), transpose_pt(b), transpose_pt(c), transpose_pt(d)),
{
    let ta = transpose_pt(a);
    let tb = transpose_pt(b);
    let tc = transpose_pt(c);
    let td = transpose_pt(d);
    assert(orient(ta, tb, tc) == -orient(a, b, c)) by (nonlinear_arith)
        requires
            ta == transpose_pt(a) && tb == transpose_pt(b) && tc == transpose_pt(c),
    ;
    assert(orient(ta, tb, td) == -orient(a, b, d)) by (nonlinear_arith)
        requires
            ta == transpose_pt(a) && tb == transpose_pt(b) && td == transpose_pt(d),
    ;
    assert(orient(tc, td, ta) == -orient(c, d, a)) by (nonlinear_arith)
        requires
            tc == transpose_pt(c) && td == transpose_pt(d) && ta == transpose_pt(a),
    ;
    assert(orient(tc, td, tb) == -orient(c, d, b)) by (nonlinear_arith)
        requires
            tc == transpose_pt(c) && td == transpose_pt(d) && tb == transpose_pt(b),
    ;
}

/// Intersecting segments overlap in y as well, by reflecting the
/// x-overlap fact across the diagonal.
pub proof fn lemma_segs_intersect_yoverlap(a: Pt, b: Pt, c: Pt, d: Pt)
    requires
        segs_intersect(a, b, c, d),
    ensures
        seg_xmin(transpose_pt(a), transpose_pt(b)) <= seg_xmax(transpose_pt(c), transpose_pt(d)),
        seg_xmin(transpose_pt(c), transpose_pt(d)) <= seg_xmax(transpose_pt(a), transpose_pt(b)),
{
    lemma_segs_intersect_transpose(a, b, c, d);
    lemma_segs_intersect_xoverlap(
        transpose_pt(a),
        transpose_pt(b),
        transpose_pt(c),
        transpose_pt(d),
    );
}

/// Polylines that intersect have intersecting envelopes: the shared
/// point of the two crossing segments lies in both bounding boxes.
pub proof fn lemma_strokes_intersect_env(p: Seq<Pt>, q: Seq<Pt>)
    requires
        crate::stroke::strokes_intersect(p, q),
    ensures
        env_intersects(env_of(p), env_of(q)),
{
    let (i, j) = choose|i: int, j: int|
        0 <= i && i + 1 < p.len() && 0 <= j && j + 1 < q.len() && #[trigger] segs_intersect(
            p[i],
            p[i + 1],
            q[j],
            q[j + 1],
        );
    lemma_segs_intersect_xoverlap(p[i], p[i + 1], q[j], q[j + 1]);
    lemma_segs_intersect_yoverlap(p[i], p[i + 1], q[j], q[j + 1]);
    lemma_env_of_bounds(p, i);
    lemma_env_of_bounds(p, i + 1);
    lemma_env_of_bounds(q, j);
    lemma_env_of_bounds(q, j + 1);
}


/// The plane Lagrange identity: the squared cross and dot products of
/// two vectors sum to the product of their squared lengths.
proof fn lemma_lagrange(vx: int, vy: int, wx: int, wy: int)
    ensures
        (vx * wy - vy * wx) * (vx * wy - vy * wx) + (vx * wx + vy * wy) * (vx * wx + vy * wy) == (
        wx * wx + wy * wy) * (vx * vx + vy * vy),
{
    let a1 = vx * wy;
    let a2 = vy * wx;
    let b1 = vx * wx;
    let b2 = vy * wy;
    let svx = vx * vx;
    let svy = vy * vy;
    let swx = wx * wx;
    let swy = wy * wy;
    assert((a1 - a2) * (a1 - a2) + (b1 + b2) * (b1 + b2) == a1 * a1 + a2 * a2 + b1 * b1 + b2 * b2
        + 2 * (b1 * b2) - 2 * (a1 * a2)) by (nonlinear_arith);
    assert(a1 * a2 == b1 * b2) by (nonlinear_arith)
        requires
            a1 == vx * wy,
            a2 == vy * wx,
            b1 == vx * wx,
            b2 == vy * wy,
    ;
    assert(a1 * a1 == svx * swy) by (nonlinear_arith)
        requires
            a1 == vx * wy,
            svx == vx * vx,
            swy == wy * wy,
    ;
    assert(a2 * a2 == svy * swx) by (nonlinear_arith)
        requires
            a2 == vy * wx,
            svy == vy * vy,
            swx == wx * wx,
    ;
    assert(b1 * b1 == svx * swx) by (nonlinear_arith)
        requires
            b1 == vx * wx,
            svx == vx * vx,
            swx == wx * wx,
    ;
    assert(b2 * b2 == svy * swy) by (nonlinear_arith)
        requires
            b2 == vy * wy,
            svy == vy * vy,
            swy == wy * wy,
    ;
    assert((swx + swy) * (svx + svy) == svx * swx + svx * swy + svy * swx + svy * swy)
        by (nonlinear_arith);
}

/// A segment with an endpoint within `r` of `p` is itself within `r`
/// of `p`: the endpoint is one of its points. Each branch of the
/// distance test absorbs the endpoint bound, the middle one by the
/// Lagrange identity.
#[verifier::rlimit(100)]
pub proof fn lemma_endpoint_within_seg(p: Pt, a: Pt, b: Pt, r: int)
    requires
        r >= 0,
        dist2(p, a) <= r * r || dist2(p, b) <= r * r,
    ensures
        pt_seg_within(p, a, b, r),
{
    let wx = b.x - a.x;
    let wy = b.y - a.y;
    let vx = p.x - a.x;
    let vy = p.y - a.y;
    let dot = vx * wx + vy * wy;
    let ww = wx * wx + wy * wy;
    let cross = vx * wy - vy * wx;
    if dot <= 0 {
        assert(dist2(p, a) <= r * r) by (nonlinear_arith)
            requires
                dist2(p, a) <= r * r || dist2(p, b) <= r * r,
                dist2(p, a) == vx * vx + vy * vy,
                dist2(p, b) == (vx - wx) * (vx - wx) + (vy - wy) * (vy - wy),
                dot == vx * wx + vy * wy,
                ww == wx * wx + wy * wy,
                dot <= 0,
                r >= 0,
        ;
    } else if dot >= ww {
        assert(dist2(p, b) <= r * r) by (nonlinear_arith)
            requires
                dist2(p, a) <= r * r || dist2(p, b) <= r * r,
                dist2(p, a) == vx * vx + vy * vy,
                dist2(p, b) == (vx - wx) * (vx - wx) + (vy - wy) * (vy - wy),
                dot == vx * wx + vy * wy,
                ww == wx * wx + wy * wy,
                dot >= ww,
                r >= 0,
        ;
    } else {
        if dist2(p, a) <= r * r {
            lemma_lagrange(vx, vy, wx, wy);
            assert(cross * cross + dot * dot == ww * (vx * vx + vy * vy));
            assert(cross * cross <= r * r * ww) by (nonlinear_arith)
                requires
                    cross * cross + dot * dot == ww * (vx * vx + vy * vy),
                    vx * vx + vy * vy <= r * r,
                    ww >= 0,
            ;
        } else {
            let ux = vx - wx;
            let uy = vy - wy;
            let dot2 = ux * wx + uy * wy;
            assert(cross == ux * wy - uy * wx) by (nonlinear_arith)
                requires
                    cross == vx * wy - vy * wx,
                    ux == vx - wx,
                    uy == vy - wy,
            ;
            lemma_lagrange(ux, uy, wx, wy);
            assert(cross * cross + dot2 * dot2 == ww * (ux * ux + uy * uy));
            assert(cross * cross <= r * r * ww) by (nonlinear_arith)
                requires
                    cross * cross + dot2 * dot2 == ww * (ux * ux + uy * uy),
                    ux * ux + uy * uy <= r * r,
                    ww >= 0,
            ;
        }
    }
}

} // verus!
