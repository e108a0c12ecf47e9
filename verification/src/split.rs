//! Split erase: clipping strokes at the boundary of an eraser's
//! influence region with exact integer arithmetic, and keeping the
//! sub-runs that fall outside it.

use vstd::arithmetic::div_mod::{
    lemma_div_by_multiple, lemma_div_is_ordered, lemma_fundamental_div_mod_converse,
};
use vstd::prelude::*;

use crate::geom::{dist2, pt_in_range, pt_seg_within, Pt, COORD_LIMIT};

verus! {

/// The integer square root: the greatest `s` with `s * s <= n`.
pub open spec fn isqrt_spec(n: int) -> int {
    choose|s: int| s >= 0 && #[trigger] (s * s) <= n < (s + 1) * (s + 1)
}

/// Every non-negative integer has an integer square root, and it is
/// unique, so `isqrt_spec` names it.
pub proof fn lemma_isqrt_exists(n: int)
    requires
        n >= 0,
    ensures
        isqrt_spec(n) >= 0,
        isqrt_spec(n) * isqrt_spec(n) <= n,
        n < (isqrt_spec(n) + 1) * (isqrt_spec(n) + 1),
    decreases n,
{
    if n == 0 {
        assert(0 * 0 <= 0 < (0 + 1) * (0 + 1)) by (nonlinear_arith);
        let s = choose|s: int| s >= 0 && #[trigger] (s * s) <= n < (s + 1) * (s + 1);
    } else {
        lemma_isqrt_exists(n - 1);
        let p = isqrt_spec(n - 1);
        if (p + 1) * (p + 1) == n {
            assert((p + 1) >= 0 && (p + 1) * (p + 1) <= n < (p + 2) * (p + 2)) by (nonlinear_arith)
                requires
                    p >= 0 && (p + 1) * (p + 1) == n,
            ;
        } else {
            assert(p >= 0 && p * p <= n < (p + 1) * (p + 1)) by (nonlinear_arith)
                requires
                    p >= 0 && p * p <= n - 1 < (p + 1) * (p + 1) && (p + 1) * (p + 1) != n,
            ;
        }
        let s = choose|s: int| s >= 0 && #[trigger] (s * s) <= n < (s + 1) * (s + 1);
    }
}

/// Two integer square roots of the same number are equal.
pub proof fn lemma_isqrt_unique(n: int, s1: int, s2: int)
    by (nonlinear_arith)
    requires
        s1 >= 0 && s1 * s1 <= n < (s1 + 1) * (s1 + 1),
        s2 >= 0 && s2 * s2 <= n < (s2 + 1) * (s2 + 1),
    ensures
        s1 == s2,
{
}

/// Computes the integer square root of `n`.
pub fn isqrt(n: i128) -> (s: i128)
    requires
        0 <= n,
    ensures
        s == isqrt_spec(n as int),
        0 <= s <= 0x1_0000_0000_0000_0000,
{
    let m: u128 = n as u128;
    let mut lo: u128 = 0;
    let mut hi: u128 = 0xffff_ffff_ffff_ffff;
    proof {
        assert((0xffff_ffff_ffff_ffffu128 as int) * (0xffff_ffff_ffff_ffffu128 as int) > m as int)
            by (nonlinear_arith)
            requires
                m as int <= 0x7fff_ffff_ffff_ffff_ffff_ffff_ffff_ffffu128 as int,
        ;
    }
    while lo + 1 < hi
        invariant
            0 <= lo < hi <= 0xffff_ffff_ffff_ffff,
            (lo as int) * (lo as int) <= m as int,
            (hi as int) * (hi as int) > m as int,
        decreases hi - lo,
    {
        let mid = lo + (hi - lo) / 2;
        proof {
            assert((mid as int) * (mid as int) < 0xffff_ffff_ffff_ffff_ffff_ffff_ffff_ffffu128 as int)
                by (nonlinear_arith)
                requires
                    0 <= mid as int <= 0xffff_ffff_ffff_fffeu128 as int,
            ;
        }
        if mid * mid <= m {
            lo = mid;
        } else {
            hi = mid;
        }
    }
    proof {
        lemma_isqrt_exists(n as int);
        lemma_isqrt_unique(n as int, lo as int, isqrt_spec(n as int));
    }
    lo as i128
}

/// Division rounded toward zero, for positive divisors.
pub open spec fn tdiv(n: int, d: int) -> int {
    if n >= 0 {
        n / d
    } else {
        -((-n) / d)
    }
}

/// Division rounded away from zero, for positive divisors.
pub open spec fn adiv(n: int, d: int) -> int {
    if n >= 0 {
        (n + d - 1) / d
    } else {
        -((-n + d - 1) / d)
    }
}

/// Computes `tdiv` on machine integers.
pub fn tdiv_i128(n: i128, d: i128) -> (q: i128)
    requires
        1 <= d,
        -0x1000_0000_0000_0000_0000_0000_0000_0000 < n,
    ensures
        q == tdiv(n as int, d as int),
{
    if n >= 0 {
        ((n as u128) / (d as u128)) as i128
    } else {
        let m = ((-n) as u128) / (d as u128);
        proof {
            vstd::arithmetic::div_mod::lemma_div_nonincreasing((-n) as int, d as int);
        }
        -(m as i128)
    }
}

/// Computes `adiv` on machine integers.
pub fn adiv_i128(n: i128, d: i128) -> (q: i128)
    requires
        1 <= d < 0x1000_0000_0000_0000_0000_0000_0000_0000,
        -0x1000_0000_0000_0000_0000_0000_0000_0000 < n
            < 0x1000_0000_0000_0000_0000_0000_0000_0000,
    ensures
        q == adiv(n as int, d as int),
{
    if n >= 0 {
        let nn = n as u128 + d as u128 - 1;
        let m = nn / (d as u128);
        proof {
            vstd::arithmetic::div_mod::lemma_div_nonincreasing(nn as int, d as int);
        }
        m as i128
    } else {
        let nn = (-n) as u128 + d as u128 - 1;
        let m = nn / (d as u128);
        proof {
            vstd::arithmetic::div_mod::lemma_div_nonincreasing(nn as int, d as int);
        }
        -(m as i128)
    }
}

/// For `0 <= t <= d`, the scaled quotient `tdiv(t * w, d)` lies between
/// `0` and `w`; the same holds for `adiv`. The clip points below stay
/// on their segment's bounding box because of this.
pub proof fn lemma_scaled_div_bounds(t: int, w: int, d: int)
    requires
        1 <= d,
        0 <= t <= d,
    ensures
        w >= 0 ==> 0 <= tdiv(t * w, d) <= w && 0 <= adiv(t * w, d) <= w,
        w < 0 ==> w <= tdiv(t * w, d) <= 0 && w <= adiv(t * w, d) <= 0,
{
    if w >= 0 {
        assert(0 <= t * w <= d * w) by (nonlinear_arith)
            requires
                0 <= t <= d && w >= 0,
        ;
        lemma_div_is_ordered(t * w, d * w, d);
        assert(d * w == w * d) by (nonlinear_arith);
        lemma_div_by_multiple(w, d);
        vstd::arithmetic::div_mod::lemma_div_pos_is_pos(t * w, d);
        // away-from-zero: (t*w + d - 1) / d <= w since t*w <= d*w means
        // t*w + d - 1 <= d*w + d - 1, and (d*w + d - 1) / d == w.
        lemma_div_is_ordered(t * w + d - 1, d * w + d - 1, d);
        assert(d * w + d - 1 == w * d + (d - 1)) by (nonlinear_arith);
        lemma_fundamental_div_mod_converse(w * d + (d - 1), d, w, d - 1);
        vstd::arithmetic::div_mod::lemma_div_pos_is_pos(t * w + d - 1, d);
    } else if t * w == 0 {
        assert(t * w == 0 ==> tdiv(t * w, d) == 0 && adiv(t * w, d) == 0) by {
            lemma_fundamental_div_mod_converse(d - 1, d, 0, d - 1);
            vstd::arithmetic::div_mod::lemma_div_of0(d);
        }
    } else {
        assert(0 <= t * (-w) <= d * (-w)) by (nonlinear_arith)
            requires
                0 <= t <= d && w < 0,
        ;
        assert(t * w < 0) by (nonlinear_arith)
            requires
                t * w != 0 && t >= 0 && w < 0,
        ;
        assert(t * (-w) == -(t * w) && d * (-w) == -(d * w)) by (nonlinear_arith);
        lemma_div_is_ordered(-(t * w), -(d * w), d);
        assert(-(d * w) == (-w) * d) by (nonlinear_arith);
        lemma_div_by_multiple(-w, d);
        vstd::arithmetic::div_mod::lemma_div_pos_is_pos(-(t * w), d);
        lemma_div_is_ordered(-(t * w) + d - 1, -(d * w) + d - 1, d);
        assert(-(d * w) + d - 1 == (-w) * d + (d - 1)) by (nonlinear_arith);
        lemma_fundamental_div_mod_converse((-w) * d + (d - 1), d, -w, d - 1);
        vstd::arithmetic::div_mod::lemma_div_pos_is_pos(-(t * w) + d - 1, d);
    }
}


/// Where the segment `a`-`b` enters the disc of radius `r` about `c`:
/// a point of the segment's bounding box just before the entry
/// parameter, rounded toward `a` and checked to lie strictly outside
/// the disc; `None` when no such interior clip point exists. The
/// quantity `ww * r^2 - cross^2` is the discriminant of the entry
/// quadratic, by the Lagrange identity.
pub open spec fn clip_entry(a: Pt, b: Pt, c: Pt, r: int) -> Option<Pt> {
    let wx = b.x - a.x;
    let wy = b.y - a.y;
    let vx = c.x - a.x;
    let vy = c.y - a.y;
    let dot = vx * wx + vy * wy;
    let ww = wx * wx + wy * wy;
    let cross = vx * wy - vy * wx;
    let disc = ww * (r * r) - cross * cross;
    if ww == 0 || disc < 0 {
        None
    } else {
        let tn = dot - isqrt_spec(disc) - 1;
        if tn <= 0 || tn >= ww {
            None
        } else {
            let p = Pt {
                x: (a.x + tdiv(tn * wx, ww)) as i64,
                y: (a.y + tdiv(tn * wy, ww)) as i64,
            };
            if dist2(p, c) > r * r {
                Some(p)
            } else {
                None
            }
        }
    }
}

/// Where the segment `a`-`b` leaves the disc of radius `r` about `c`:
/// a point just after the exit parameter, rounded toward `b` and
/// checked to lie strictly outside the disc; `None` when no such
/// interior clip point exists.
pub open spec fn clip_exit(a: Pt, b: Pt, c: Pt, r: int) -> Option<Pt> {
    let wx = b.x - a.x;
    let wy = b.y - a.y;
    let vx = c.x - a.x;
    let vy = c.y - a.y;
    let dot = vx * wx + vy * wy;
    let ww = wx * wx + wy * wy;
    let cross = vx * wy - vy * wx;
    let disc = ww * (r * r) - cross * cross;
    if ww == 0 || disc < 0 {
        None
    } else {
        let tn = dot + isqrt_spec(disc) + 1;
        if tn <= 0 || tn >= ww {
            None
        } else {
            let p = Pt {
                x: (a.x + adiv(tn * wx, ww)) as i64,
                y: (a.y + adiv(tn * wy, ww)) as i64,
            };
            if dist2(p, c) > r * r {
                Some(p)
            } else {
                None
            }
        }
    }
}

/// A clip point lies on its segment's bounding box and strictly
/// outside the erased disc.
pub proof fn lemma_clip_props(a: Pt, b: Pt, c: Pt, r: int)
    requires
        pt_in_range(a),
        pt_in_range(b),
        pt_in_range(c),
        0 <= r <= COORD_LIMIT,
    ensures
        match clip_entry(a, b, c, r) {
            Some(p) => crate::geom::pt_in_box(p, a, b) && pt_in_range(p) && dist2(p, c) > r * r,
            None => true,
        },
        match clip_exit(a, b, c, r) {
            Some(p) => crate::geom::pt_in_box(p, a, b) && pt_in_range(p) && dist2(p, c) > r * r,
            None => true,
        },
{
    let wx = b.x - a.x;
    let wy = b.y - a.y;
    let vx = c.x - a.x;
    let vy = c.y - a.y;
    let dot = vx * wx + vy * wy;
    let ww = wx * wx + wy * wy;
    let cross = vx * wy - vy * wx;
    let disc = ww * (r * r) - cross * cross;
    if ww != 0 && disc >= 0 {
        lemma_isqrt_exists(disc);
        let s = isqrt_spec(disc);
        let tn1 = dot - s - 1;
        if 0 < tn1 < ww {
            lemma_scaled_div_bounds(tn1, wx as int, ww);
            lemma_scaled_div_bounds(tn1, wy as int, ww);
        }
        let tn2 = dot + s + 1;
        if 0 < tn2 < ww {
            lemma_scaled_div_bounds(tn2, wx as int, ww);
            lemma_scaled_div_bounds(tn2, wy as int, ww);
        }
    }
}

/// Computes `clip_entry` exactly.
pub fn clip_entry_ck(a: Pt, b: Pt, c: Pt, r: i64) -> (res: Option<Pt>)
    requires
        pt_in_range(a),
        pt_in_range(b),
        pt_in_range(c),
        0 <= r <= COORD_LIMIT,
    ensures
        res == clip_entry(a, b, c, r as int),
{
    proof {
        lemma_clip_props(a, b, c, r as int);
    }
    let wx: i128 = b.x as i128 - a.x as i128;
    let wy: i128 = b.y as i128 - a.y as i128;
    let vx: i128 = c.x as i128 - a.x as i128;
    let vy: i128 = c.y as i128 - a.y as i128;
    proof {
        clip_mul_bounds(vx as int, vy as int, wx as int, wy as int, r as int);
    }
    let dot: i128 = vx * wx + vy * wy;
    let ww: i128 = wx * wx + wy * wy;
    let cross: i128 = vx * wy - vy * wx;
    let disc: i128 = ww * (r as i128 * r as i128) - cross * cross;
    if ww == 0 || disc < 0 {
        return None;
    }
    let s = isqrt(disc);
    let tn: i128 = dot - s - 1;
    if tn <= 0 || tn >= ww {
        return None;
    }
    proof {
        crate::geom::lemma_mul_bound(tn as int, wx as int, 0x8000_0000_0000_0000, 0x8000_0000);
        crate::geom::lemma_mul_bound(tn as int, wy as int, 0x8000_0000_0000_0000, 0x8000_0000);
        lemma_scaled_div_bounds(tn as int, wx as int, ww as int);
        lemma_scaled_div_bounds(tn as int, wy as int, ww as int);
    }
    let ox = tdiv_i128(tn * wx, ww);
    let oy = tdiv_i128(tn * wy, ww);
    let p = Pt { x: (a.x as i128 + ox) as i64, y: (a.y as i128 + oy) as i64 };
    proof {
        crate::geom::lemma_mul_bound(r as int, r as int, COORD_LIMIT as int, COORD_LIMIT as int);
    }
    if crate::geom::dist2_val(p, c) > r as i128 * r as i128 {
        Some(p)
    } else {
        None
    }
}

/// Computes `clip_exit` exactly.
pub fn clip_exit_ck(a: Pt, b: Pt, c: Pt, r: i64) -> (res: Option<Pt>)
    requires
        pt_in_range(a),
        pt_in_range(b),
        pt_in_range(c),
        0 <= r <= COORD_LIMIT,
    ensures
        res == clip_exit(a, b, c, r as int),
{
    proof {
        lemma_clip_props(a, b, c, r as int);
    }
    let wx: i128 = b.x as i128 - a.x as i128;
    let wy: i128 = b.y as i128 - a.y as i128;
    let vx: i128 = c.x as i128 - a.x as i128;
    let vy: i128 = c.y as i128 - a.y as i128;
    proof {
        clip_mul_bounds(vx as int, vy as int, wx as int, wy as int, r as int);
    }
    let dot: i128 = vx * wx + vy * wy;
    let ww: i128 = wx * wx + wy * wy;
    let cross: i128 = vx * wy - vy * wx;
    let disc: i128 = ww * (r as i128 * r as i128) - cross * cross;
    if ww == 0 || disc < 0 {
        return None;
    }
    let s = isqrt(disc);
    let tn: i128 = dot + s + 1;
    if tn <= 0 || tn >= ww {
        return None;
    }
    proof {
        crate::geom::lemma_mul_bound(tn as int, wx as int, 0x8000_0000_0000_0000, 0x8000_0000);
        crate::geom::lemma_mul_bound(tn as int, wy as int, 0x8000_0000_0000_0000, 0x8000_0000);
        lemma_scaled_div_bounds(tn as int, wx as int, ww as int);
        lemma_scaled_div_bounds(tn as int, wy as int, ww as int);
    }
    let ox = adiv_i128(tn * wx, ww);
    let oy = adiv_i128(tn * wy, ww);
    let p = Pt { x: (a.x as i128 + ox) as i64, y: (a.y as i128 + oy) as i64 };
    proof {
        crate::geom::lemma_mul_bound(r as int, r as int, COORD_LIMIT as int, COORD_LIMIT as int);
    }
    if crate::geom::dist2_val(p, c) > r as i128 * r as i128 {
        Some(p)
    } else {
        None
    }
}

/// Bounds for the intermediate products of the clip computation.
proof fn clip_mul_bounds(vx: int, vy: int, wx: int, wy: int, r: int)
    requires
        -0x8000_0000 <= vx <= 0x8000_0000,
        -0x8000_0000 <= vy <= 0x8000_0000,
        -0x8000_0000 <= wx <= 0x8000_0000,
        -0x8000_0000 <= wy <= 0x8000_0000,
        0 <= r <= COORD_LIMIT,
    ensures
        -0x4000_0000_0000_0000 <= vx * wx <= 0x4000_0000_0000_0000,
        -0x4000_0000_0000_0000 <= vy * wy <= 0x4000_0000_0000_0000,
        -0x4000_0000_0000_0000 <= vx * wy <= 0x4000_0000_0000_0000,
        -0x4000_0000_0000_0000 <= vy * wx <= 0x4000_0000_0000_0000,
        0 <= wx * wx <= 0x4000_0000_0000_0000,
        0 <= wy * wy <= 0x4000_0000_0000_0000,
        0 <= r * r <= 0x1000_0000_0000_0000,
        (wx * wx + wy * wy) * (r * r) <= 0x8000_0000_0000_0000 * 0x1000_0000_0000_0000,
        0 <= (vx * wy - vy * wx) * (vx * wy - vy * wx)
            <= 0x4000_0000_0000_0000_0000_0000_0000_0000,
{
    crate::geom::lemma_mul_bound(vx, wx, 0x8000_0000, 0x8000_0000);
    crate::geom::lemma_mul_bound(vy, wy, 0x8000_0000, 0x8000_0000);
    crate::geom::lemma_mul_bound(vx, wy, 0x8000_0000, 0x8000_0000);
    crate::geom::lemma_mul_bound(vy, wx, 0x8000_0000, 0x8000_0000);
    assert(0 <= wx * wx && 0 <= wy * wy && 0 <= r * r) by (nonlinear_arith);
    crate::geom::lemma_mul_bound(wx, wx, 0x8000_0000, 0x8000_0000);
    crate::geom::lemma_mul_bound(wy, wy, 0x8000_0000, 0x8000_0000);
    crate::geom::lemma_mul_bound(r, r, COORD_LIMIT as int, COORD_LIMIT as int);
    crate::geom::lemma_mul_bound(
        wx * wx + wy * wy,
        r * r,
        0x8000_0000_0000_0000,
        0x1000_0000_0000_0000,
    );
    assert(-0x8000_0000_0000_0000 <= vx * wy - vy * wx <= 0x8000_0000_0000_0000);
    assert(0 <= (vx * wy - vy * wx) * (vx * wy - vy * wx)) by (nonlinear_arith);
    crate::geom::lemma_mul_bound(
        vx * wy - vy * wx,
        vx * wy - vy * wx,
        0x8000_0000_0000_0000,
        0x8000_0000_0000_0000,
    );
}


/// Closes out an accumulated run: runs of fewer than two points carry
/// no geometry and are dropped.
pub open spec fn close_run(out: Seq<Seq<Pt>>, cur: Seq<Pt>) -> Seq<Seq<Pt>> {
    if cur.len() >= 2 {
        out.push(cur)
    } else {
        out
    }
}

/// Starts a run at `a` unless one is already open.
pub open spec fn ensure_start(cur: Seq<Pt>, a: Pt) -> Seq<Pt> {
    if cur.len() == 0 {
        seq![a]
    } else {
        cur
    }
}

/// Appends a clip point, when there is one.
pub open spec fn push_opt(s: Seq<Pt>, o: Option<Pt>) -> Seq<Pt> {
    match o {
        Some(p) => s.push(p),
        None => s,
    }
}

/// The run started by a clip point, when there is one.
pub open spec fn opt_run(o: Option<Pt>) -> Seq<Pt> {
    match o {
        Some(p) => seq![p],
        None => Seq::empty(),
    }
}

/// The split-erase walk over a polyline against a point eraser at `c`
/// with radius `r`: segments are visited in order; a vertex is erased
/// when it lies within `r` of `c`; a segment that dips into the disc is
/// clipped at its entry and exit; consecutive kept points accumulate
/// into runs, which are closed whenever the erased region interrupts
/// them.
pub open spec fn walk_point(
    pts: Seq<Pt>,
    c: Pt,
    r: int,
    i: int,
    cur: Seq<Pt>,
    out: Seq<Seq<Pt>>,
) -> Seq<Seq<Pt>>
    decreases pts.len() - i,
{
    if i < 0 || i + 1 >= pts.len() {
        close_run(out, cur)
    } else {
        let a = pts[i];
        let b = pts[i + 1];
        let a_out = dist2(a, c) > r * r;
        let b_out = dist2(b, c) > r * r;
        let dip = pt_seg_within(c, a, b, r);
        if a_out && b_out && !dip {
            walk_point(pts, c, r, i + 1, ensure_start(cur, a).push(b), out)
        } else if a_out && b_out {
            walk_point(
                pts,
                c,
                r,
                i + 1,
                opt_run(clip_exit(a, b, c, r)).push(b),
                close_run(out, push_opt(ensure_start(cur, a), clip_entry(a, b, c, r))),
            )
        } else if a_out {
            walk_point(
                pts,
                c,
                r,
                i + 1,
                Seq::empty(),
                close_run(out, push_opt(ensure_start(cur, a), clip_entry(a, b, c, r))),
            )
        } else if b_out {
            walk_point(pts, c, r, i + 1, opt_run(clip_exit(a, b, c, r)).push(b), close_run(out, cur))
        } else {
            walk_point(pts, c, r, i + 1, Seq::empty(), close_run(out, cur))
        }
    }
}

/// The sub-strokes that survive erasing the disc of radius `r` about
/// `c` from the polyline `pts`.
pub open spec fn split_point_runs(pts: Seq<Pt>, c: Pt, r: int) -> Seq<Seq<Pt>> {
    walk_point(pts, c, r, 0, Seq::empty(), Seq::empty())
}

/// Well-formed output runs: every vertex strictly outside the erased
/// disc, at least two points each, all in the coordinate range.
pub open spec fn runs_ok(res: Seq<Seq<Pt>>, c: Pt, r: int) -> bool {
    &&& forall|j: int, k: int|
        0 <= j < res.len() && 0 <= k < res[j].len() ==> dist2(#[trigger] res[j][k], c) > r * r
    &&& forall|j: int| 0 <= j < res.len() ==> (#[trigger] res[j]).len() >= 2
    &&& forall|j: int| 0 <= j < res.len() ==> crate::stroke::pts_in_range(#[trigger] res[j])
}

/// Closing a run of vertices outside the disc keeps the output runs
/// well formed.
proof fn lemma_close_run_ok(out: Seq<Seq<Pt>>, cur: Seq<Pt>, c: Pt, r: int)
    requires
        runs_ok(out, c, r),
        crate::stroke::pts_in_range(cur),
        forall|k: int| 0 <= k < cur.len() ==> dist2(#[trigger] cur[k], c) > r * r,
    ensures
        runs_ok(close_run(out, cur), c, r),
{
    let res = close_run(out, cur);
    if cur.len() >= 2 {
        assert forall|j: int, k: int|
            0 <= j < res.len() && 0 <= k < res[j].len() implies dist2(#[trigger] res[j][k], c) > r
            * r by {
            if j < out.len() {
                assert(res[j] == out[j]);
            } else {
                assert(res[j] == cur);
            }
        }
        assert forall|j: int| 0 <= j < res.len() implies crate::stroke::pts_in_range(
            #[trigger] res[j],
        ) by {
            if j < out.len() {
                assert(res[j] == out[j]);
            } else {
                assert(res[j] == cur);
            }
        }
        assert forall|j: int| 0 <= j < res.len() implies (#[trigger] res[j]).len() >= 2 by {
            if j < out.len() {
                assert(res[j] == out[j]);
            } else {
                assert(res[j] == cur);
            }
        }
    }
}

/// Every vertex a run accumulates lies strictly outside the erased
/// disc, every emitted run has at least two points, and all points stay
/// within the coordinate range.
#[verifier::rlimit(60)]
proof fn lemma_walk_point_props(pts: Seq<Pt>, c: Pt, r: int, i: int, cur: Seq<Pt>, out: Seq<Seq<Pt>>)
    requires
        crate::stroke::pts_in_range(pts),
        crate::stroke::pts_in_range(cur),
        pt_in_range(c),
        0 <= r <= COORD_LIMIT,
        forall|k: int| 0 <= k < cur.len() ==> dist2(#[trigger] cur[k], c) > r * r,
        runs_ok(out, c, r),
    ensures
        runs_ok(walk_point(pts, c, r, i, cur, out), c, r),
    decreases pts.len() - i,
{
    if i < 0 || i + 1 >= pts.len() {
        lemma_close_run_ok(out, cur, c, r);
    } else {
        let a = pts[i];
        let b = pts[i + 1];
        lemma_clip_props(a, b, c, r);
        let a_out = dist2(a, c) > r * r;
        let b_out = dist2(b, c) > r * r;
        let dip = pt_seg_within(c, a, b, r);
        if a_out && b_out && !dip {
            lemma_walk_point_props(pts, c, r, i + 1, ensure_start(cur, a).push(b), out);
        } else if a_out && b_out {
            let run_a = push_opt(ensure_start(cur, a), clip_entry(a, b, c, r));
            lemma_close_run_ok(out, run_a, c, r);
            lemma_walk_point_props(
                pts,
                c,
                r,
                i + 1,
                opt_run(clip_exit(a, b, c, r)).push(b),
                close_run(out, run_a),
            );
        } else if a_out {
            let run_a = push_opt(ensure_start(cur, a), clip_entry(a, b, c, r));
            lemma_close_run_ok(out, run_a, c, r);
            lemma_walk_point_props(pts, c, r, i + 1, Seq::empty(), close_run(out, run_a));
        } else if b_out {
            lemma_close_run_ok(out, cur, c, r);
            lemma_walk_point_props(
                pts,
                c,
                r,
                i + 1,
                opt_run(clip_exit(a, b, c, r)).push(b),
                close_run(out, cur),
            );
        } else {
            lemma_close_run_ok(out, cur, c, r);
            lemma_walk_point_props(pts, c, r, i + 1, Seq::empty(), close_run(out, cur));
        }
    }
}

/// Splitting a polyline at a point eraser keeps no vertex within the
/// erased radius: every resulting sub-stroke has at least two points,
/// all in range, and each lies strictly farther than `r` from the
/// eraser's center.
pub proof fn lemma_split_point_outside(pts: Seq<Pt>, c: Pt, r: int)
    requires
        crate::stroke::pts_in_range(pts),
        pt_in_range(c),
        0 <= r <= COORD_LIMIT,
    ensures
        runs_ok(split_point_runs(pts, c, r), c, r),
{
    lemma_walk_point_props(pts, c, r, 0, Seq::empty(), Seq::empty());
}

/// The runs of a run list, as abstract sequences.
pub open spec fn runs_view(out: Seq<Vec<Pt>>) -> Seq<Seq<Pt>> {
    out.map_values(|v: Vec<Pt>| v@)
}

/// Splits one polyline against a point eraser, returning the kept
/// sub-runs in order.
pub fn split_stroke_point(pts: &Vec<Pt>, c: Pt, r: i64) -> (out: Vec<Vec<Pt>>)
    requires
        crate::stroke::pts_in_range(pts@),
        pt_in_range(c),
        0 <= r <= COORD_LIMIT,
    ensures
        runs_view(out@) == split_point_runs(pts@, c, r as int),
{
    proof {
        crate::geom::lemma_mul_bound(r as int, r as int, COORD_LIMIT as int, COORD_LIMIT as int);
    }
    let rr: i128 = r as i128 * r as i128;
    let mut cur: Vec<Pt> = Vec::new();
    let mut out: Vec<Vec<Pt>> = Vec::new();
    let n = pts.len();
    let mut i: usize = 0;
    proof {
        assert(runs_view(out@) =~= Seq::<Seq<Pt>>::empty());
        assert(cur@ =~= Seq::<Pt>::empty());
    }
    if n < 2 {
        proof {
            assert(runs_view(out@) =~= split_point_runs(pts@, c, r as int));
        }
        return out;
    }
    while i < n - 1
        invariant
            n == pts@.len(),
            n >= 2,
            0 <= i <= n - 1,
            crate::stroke::pts_in_range(pts@),
            pt_in_range(c),
            0 <= r <= COORD_LIMIT,
            rr == (r as int) * (r as int),
            split_point_runs(pts@, c, r as int) == walk_point(
                pts@,
                c,
                r as int,
                i as int,
                cur@,
                runs_view(out@),
            ),
        decreases n - 1 - i,
    {
        let a = pts[i];
        let b = pts[i + 1];
        let a_out = crate::geom::dist2_val(a, c) > rr;
        let b_out = crate::geom::dist2_val(b, c) > rr;
        let dip = crate::geom::pt_seg_within_ck(c, a, b, r);
        let ghost cur0 = cur@;
        let ghost out0 = runs_view(out@);
        if a_out && b_out && !dip {
            if cur.len() == 0 {
                cur.push(a);
            }
            cur.push(b);
            proof {
                assert(cur@ == ensure_start(cur0, a).push(b));
            }
        } else if a_out && b_out {
            if cur.len() == 0 {
                cur.push(a);
            }
            match clip_entry_ck(a, b, c, r) {
                Some(p) => {
                    cur.push(p);
                },
                None => {},
            }
            proof {
                assert(cur@ == push_opt(ensure_start(cur0, a), clip_entry(a, b, c, r as int)));
            }
            if cur.len() >= 2 {
                out.push(cur);
                proof {
                    assert(runs_view(out@) =~= out0.push(
                        push_opt(ensure_start(cur0, a), clip_entry(a, b, c, r as int)),
                    ));
                }
            }
            cur = Vec::new();
            match clip_exit_ck(a, b, c, r) {
                Some(p) => {
                    cur.push(p);
                },
                None => {},
            }
            cur.push(b);
            proof {
                assert(cur@ == opt_run(clip_exit(a, b, c, r as int)).push(b));
            }
        } else if a_out {
            if cur.len() == 0 {
                cur.push(a);
            }
            match clip_entry_ck(a, b, c, r) {
                Some(p) => {
                    cur.push(p);
                },
                None => {},
            }
            proof {
                assert(cur@ == push_opt(ensure_start(cur0, a), clip_entry(a, b, c, r as int)));
            }
            if cur.len() >= 2 {
                out.push(cur);
                proof {
                    assert(runs_view(out@) =~= out0.push(
                        push_opt(ensure_start(cur0, a), clip_entry(a, b, c, r as int)),
                    ));
                }
            }
            cur = Vec::new();
        } else if b_out {
            if cur.len() >= 2 {
                out.push(cur);
                proof {
                    assert(runs_view(out@) =~= out0.push(cur0));
                }
            }
            cur = Vec::new();
            match clip_exit_ck(a, b, c, r) {
                Some(p) => {
                    cur.push(p);
                },
                None => {},
            }
            cur.push(b);
            proof {
                assert(cur@ == opt_run(clip_exit(a, b, c, r as int)).push(b));
            }
        } else {
            if cur.len() >= 2 {
                out.push(cur);
                proof {
                    assert(runs_view(out@) =~= out0.push(cur0));
                }
            }
            cur = Vec::new();
        }
        i = i + 1;
    }
    if cur.len() >= 2 {
        let ghost out0 = runs_view(out@);
        let ghost cur0 = cur@;
        out.push(cur);
        proof {
            assert(runs_view(out@) =~= out0.push(cur0));
        }
    }
    out
}


/// Whether some segment of the polyline comes within `r` of `c`: only
/// then does a point erase change the stroke.
pub open spec fn has_erased_seg_point(pts: Seq<Pt>, c: Pt, r: int) -> bool {
    exists|i: int|
        0 <= i && i + 1 < pts.len() && #[trigger] pt_seg_within(c, pts[i], pts[i + 1], r)
}

/// Decides `has_erased_seg_point`.
pub fn stroke_has_erased_seg_point(pts: &Vec<Pt>, c: Pt, r: i64) -> (res: bool)
    requires
        crate::stroke::pts_in_range(pts@),
        pt_in_range(c),
        0 <= r <= COORD_LIMIT,
    ensures
        res == has_erased_seg_point(pts@, c, r as int),
{
    let n = pts.len();
    if n < 2 {
        return false;
    }
    let mut i: usize = 0;
    while i < n - 1
        invariant
            n == pts@.len(),
            n >= 2,
            0 <= i <= n - 1,
            crate::stroke::pts_in_range(pts@),
            pt_in_range(c),
            0 <= r <= COORD_LIMIT,
            forall|k: int|
                0 <= k < i ==> !(#[trigger] pt_seg_within(c, pts@[k], pts@[k + 1], r as int)),
        decreases n - 1 - i,
    {
        if crate::geom::pt_seg_within_ck(c, pts[i], pts[i + 1], r) {
            return true;
        }
        i = i + 1;
    }
    false
}

/// Whether the segment `a`-`b` comes within `r` of any segment of the
/// eraser path `q`.
pub open spec fn seg_near_path(a: Pt, b: Pt, q: Seq<Pt>, r: int) -> bool {
    exists|j: int|
        0 <= j && j + 1 < q.len() && #[trigger] crate::geom::seg_seg_within(
            a,
            b,
            q[j],
            q[j + 1],
            r,
        )
}

/// The split-erase walk over a polyline against a path eraser: each
/// segment is classified whole, erased when its minimum distance to
/// the eraser path is at most `r`; consecutive kept points accumulate
/// into runs, closed at every erased segment.
pub open spec fn walk_path(
    pts: Seq<Pt>,
    q: Seq<Pt>,
    r: int,
    i: int,
    cur: Seq<Pt>,
    out: Seq<Seq<Pt>>,
) -> Seq<Seq<Pt>>
    decreases pts.len() - i,
{
    if i < 0 || i + 1 >= pts.len() {
        close_run(out, cur)
    } else if !seg_near_path(pts[i], pts[i + 1], q, r) {
        walk_path(pts, q, r, i + 1, ensure_start(cur, pts[i]).push(pts[i + 1]), out)
    } else {
        walk_path(pts, q, r, i + 1, Seq::empty(), close_run(out, cur))
    }
}

/// The eraser path as the split erase sees it: an eraser of a single
/// point, a click with no drag, acts as a zero-length eraser at that
/// point and is still tested against the radius.
pub open spec fn pad_path(q: Seq<Pt>) -> Seq<Pt> {
    if q.len() == 1 {
        q.push(q[0])
    } else {
        q
    }
}

/// The sub-strokes that survive erasing with the path `q` swept by
/// radius `r` from the polyline `pts`; a one-point eraser is a
/// zero-length eraser at that point.
pub open spec fn split_path_runs(pts: Seq<Pt>, q: Seq<Pt>, r: int) -> Seq<Seq<Pt>> {
    walk_path(pts, pad_path(q), r, 0, Seq::empty(), Seq::empty())
}

/// Runs kept by a path erase are in range and at least two points
/// long: path erasing keeps only whole kept segments.
pub open spec fn path_runs_ok(res: Seq<Seq<Pt>>) -> bool {
    &&& forall|j: int| 0 <= j < res.len() ==> (#[trigger] res[j]).len() >= 2
    &&& forall|j: int| 0 <= j < res.len() ==> crate::stroke::pts_in_range(#[trigger] res[j])
}

proof fn lemma_close_run_path_ok(out: Seq<Seq<Pt>>, cur: Seq<Pt>)
    requires
        path_runs_ok(out),
        crate::stroke::pts_in_range(cur),
    ensures
        path_runs_ok(close_run(out, cur)),
{
    let res = close_run(out, cur);
    if cur.len() >= 2 {
        assert forall|j: int| 0 <= j < res.len() implies crate::stroke::pts_in_range(
            #[trigger] res[j],
        ) by {
            if j < out.len() {
                assert(res[j] == out[j]);
            } else {
                assert(res[j] == cur);
            }
        }
        assert forall|j: int| 0 <= j < res.len() implies (#[trigger] res[j]).len() >= 2 by {
            if j < out.len() {
                assert(res[j] == out[j]);
            } else {
                assert(res[j] == cur);
            }
        }
    }
}

proof fn lemma_walk_path_props(pts: Seq<Pt>, q: Seq<Pt>, r: int, i: int, cur: Seq<Pt>, out: Seq<Seq<Pt>>)
    requires
        crate::stroke::pts_in_range(pts),
        crate::stroke::pts_in_range(cur),
        path_runs_ok(out),
    ensures
        path_runs_ok(walk_path(pts, q, r, i, cur, out)),
    decreases pts.len() - i,
{
    if i < 0 || i + 1 >= pts.len() {
        lemma_close_run_path_ok(out, cur);
    } else if !seg_near_path(pts[i], pts[i + 1], q, r) {
        lemma_walk_path_props(pts, q, r, i + 1, ensure_start(cur, pts[i]).push(pts[i + 1]), out);
    } else {
        lemma_close_run_path_ok(out, cur);
        lemma_walk_path_props(pts, q, r, i + 1, Seq::empty(), close_run(out, cur));
    }
}

/// Every sub-stroke kept by a path erase has at least two points, all
/// in the coordinate range.
pub proof fn lemma_split_path_ok(pts: Seq<Pt>, q: Seq<Pt>, r: int)
    requires
        crate::stroke::pts_in_range(pts),
    ensures
        path_runs_ok(split_path_runs(pts, q, r)),
{
    lemma_walk_path_props(pts, pad_path(q), r, 0, Seq::empty(), Seq::empty());
}

/// Whether the path eraser erases some segment of the polyline; a
/// one-point eraser is a zero-length eraser at that point.
pub open spec fn has_erased_seg_path(pts: Seq<Pt>, q: Seq<Pt>, r: int) -> bool {
    exists|i: int|
        0 <= i && i + 1 < pts.len() && #[trigger] seg_near_path(
            pts[i],
            pts[i + 1],
            pad_path(q),
            r,
        )
}

/// Decides `has_erased_seg_path`.
pub fn stroke_has_erased_seg_path(pts: &Vec<Pt>, q: &Vec<Pt>, r: i64) -> (res: bool)
    requires
        crate::stroke::pts_in_range(pts@),
        crate::stroke::pts_in_range(q@),
        0 <= r <= COORD_LIMIT,
    ensures
        res == has_erased_seg_path(pts@, q@, r as int),
{
    let n = pts.len();
    if n < 2 {
        return false;
    }
    let mut padded: Vec<Pt> = Vec::new();
    if q.len() == 1 {
        padded.push(q[0]);
        padded.push(q[0]);
    }
    let qq: &Vec<Pt> = if q.len() == 1 {
        &padded
    } else {
        q
    };
    proof {
        assert(qq@ =~= pad_path(q@));
        assert forall|k: int| 0 <= k < qq@.len() implies pt_in_range(#[trigger] qq@[k]) by {
            if q@.len() == 1 {
                assert(qq@[k] == q@[0]);
            }
        }
    }
    let flags = crate::sweep::classify_near_path(pts, qq, r);
    let mut i: usize = 0;
    while i < n - 1
        invariant
            n == pts@.len(),
            n >= 2,
            flags@.len() == n - 1,
            0 <= i <= n - 1,
            qq@ == pad_path(q@),
            forall|k: int|
                0 <= k < flags@.len() ==> flags@[k] == seg_near_path(
                    pts@[k],
                    pts@[k + 1],
                    qq@,
                    r as int,
                ),
            forall|k: int|
                0 <= k < i ==> !(#[trigger] seg_near_path(pts@[k], pts@[k + 1], qq@, r as int)),
        decreases n - 1 - i,
    {
        if flags[i] {
            return true;
        }
        i = i + 1;
    }
    false
}

/// Splits one polyline against a path eraser, returning the kept
/// sub-runs in order.
pub fn split_stroke_path(pts: &Vec<Pt>, q: &Vec<Pt>, r: i64) -> (out: Vec<Vec<Pt>>)
    requires
        crate::stroke::pts_in_range(pts@),
        crate::stroke::pts_in_range(q@),
        0 <= r <= COORD_LIMIT,
    ensures
        runs_view(out@) == split_path_runs(pts@, q@, r as int),
{
    let mut cur: Vec<Pt> = Vec::new();
    let mut out: Vec<Vec<Pt>> = Vec::new();
    let n = pts.len();
    let mut i: usize = 0;
    proof {
        assert(runs_view(out@) =~= Seq::<Seq<Pt>>::empty());
        assert(cur@ =~= Seq::<Pt>::empty());
    }
    if n < 2 {
        proof {
            assert(runs_view(out@) =~= split_path_runs(pts@, q@, r as int));
        }
        return out;
    }
    let mut padded: Vec<Pt> = Vec::new();
    if q.len() == 1 {
        padded.push(q[0]);
        padded.push(q[0]);
    }
    let qq: &Vec<Pt> = if q.len() == 1 {
        &padded
    } else {
        q
    };
    proof {
        assert(qq@ =~= pad_path(q@));
        assert forall|k: int| 0 <= k < qq@.len() implies pt_in_range(#[trigger] qq@[k]) by {
            if q@.len() == 1 {
                assert(qq@[k] == q@[0]);
            }
        }
    }
    let flags = crate::sweep::classify_near_path(pts, qq, r);
    while i < n - 1
        invariant
            n == pts@.len(),
            n >= 2,
            0 <= i <= n - 1,
            flags@.len() == n - 1,
            qq@ == pad_path(q@),
            forall|k: int|
                0 <= k < flags@.len() ==> flags@[k] == seg_near_path(
                    pts@[k],
                    pts@[k + 1],
                    qq@,
                    r as int,
                ),
            crate::stroke::pts_in_range(pts@),
            0 <= r <= COORD_LIMIT,
            split_path_runs(pts@, q@, r as int) == walk_path(
                pts@,
                qq@,
                r as int,
                i as int,
                cur@,
                runs_view(out@),
            ),
        decreases n - 1 - i,
    {
        let a = pts[i];
        let b = pts[i + 1];
        let ghost cur0 = cur@;
        let ghost out0 = runs_view(out@);
        if !flags[i] {
            if cur.len() == 0 {
                cur.push(a);
            }
            cur.push(b);
            proof {
                assert(cur@ == ensure_start(cur0, a).push(b));
            }
        } else {
            if cur.len() >= 2 {
                out.push(cur);
                proof {
                    assert(runs_view(out@) =~= out0.push(cur0));
                }
            }
            cur = Vec::new();
        }
        i = i + 1;
    }
    if cur.len() >= 2 {
        let ghost out0 = runs_view(out@);
        let ghost cur0 = cur@;
        out.push(cur);
        proof {
            assert(runs_view(out@) =~= out0.push(cur0));
        }
    }
    out
}

} // verus!
