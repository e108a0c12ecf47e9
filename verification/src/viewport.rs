//! The viewport: an exact rational affine transform between document space
//! and screen space, one axis at a time, plus the screen size.
//!
//! Each axis maps a document coordinate `x` to the screen coordinate
//! `(sn * x + tn) / d`, a rational with positive scale `sn / d`. Pan and
//! zoom update the three integers exactly; an update whose result would
//! leave the representable range is rejected and leaves the transform
//! unchanged, so the transform never degenerates.

use vstd::arithmetic::div_mod::{
    lemma_div_by_multiple, lemma_div_is_ordered, lemma_fundamental_div_mod_converse,
};
use vstd::prelude::*;

use crate::geom::{Env, Pt, COORD_LIMIT};

verus! {

/// Largest denominator an axis transform may take.
pub const DEN_LIMIT: i64 = 0x4000_0000_0000;

/// Largest ratio between the scale numerator and denominator in either
/// direction: the zoom factor stays within this bound of one.
pub const ZOOM_LIMIT: i64 = 0x1_0000;

/// Largest translation, measured in screen units.
pub const SHIFT_LIMIT: i64 = 0x1000_0000_0000;

/// Absolute cap on the translation numerator.
pub const TRANS_LIMIT: i64 = 0x4000_0000_0000_0000;

/// One axis of the document-to-screen transform: `x` maps to
/// `(sn * x + tn) / d`.
#[derive(Clone, Copy, Debug, PartialEq, Eq, Structural)]
pub struct Axis {
    pub sn: i64,
    pub tn: i64,
    pub d: i64,
}

/// The two-axis transform of a viewport.
#[derive(Clone, Copy, Debug, PartialEq, Eq, Structural)]
pub struct Transform2 {
    pub x: Axis,
    pub y: Axis,
}

/// The viewport: screen size and document-to-screen transform.
#[derive(Clone, Copy, Debug, PartialEq, Eq, Structural)]
pub struct Viewport {
    pub width: i32,
    pub height: i32,
    pub transform: Transform2,
}

/// Well-formedness of one axis: positive scale and denominator, zoom and
/// translation within their caps.
pub open spec fn axis_wf(a: Axis) -> bool {
    &&& 1 <= a.d <= DEN_LIMIT
    &&& 1 <= a.sn
    &&& a.sn <= a.d * ZOOM_LIMIT
    &&& a.d <= a.sn * ZOOM_LIMIT
    &&& -(a.d * SHIFT_LIMIT) <= a.tn <= a.d * SHIFT_LIMIT
    &&& -TRANS_LIMIT <= a.tn <= TRANS_LIMIT
}

/// Well-formedness of a viewport.
pub open spec fn viewport_wf(v: Viewport) -> bool {
    &&& axis_wf(v.transform.x)
    &&& axis_wf(v.transform.y)
    &&& 0 <= v.width <= COORD_LIMIT
    &&& 0 <= v.height <= COORD_LIMIT
}

/// Equality of the rationals `n1 / d1` and `n2 / d2`, cross-multiplied.
pub open spec fn qeq(n1: int, d1: int, n2: int, d2: int) -> bool {
    n1 * d2 == n2 * d1
}

/// Numerator of the exact screen coordinate of document coordinate `x`;
/// the denominator is `a.d`.
pub open spec fn screen_num(a: Axis, x: int) -> int {
    a.sn * x + a.tn
}

/// Numerator of the exact document coordinate of the rational screen
/// coordinate `yn / yd`; the denominator is `a.sn * yd`.
pub open spec fn doc_num_q(a: Axis, yn: int, yd: int) -> int {
    yn * a.d - a.tn * yd
}

/// The document coordinate shown at integer screen coordinate `y`,
/// rounded toward minus infinity.
pub open spec fn doc_floor(a: Axis, y: int) -> int {
    (y * a.d - a.tn) / (a.sn as int)
}

/// The screen coordinate of integer document coordinate `x`, rounded
/// toward minus infinity.
pub open spec fn screen_floor(a: Axis, x: int) -> int {
    (a.sn * x + a.tn) / (a.d as int)
}

/// The document-space box covering the screen rectangle, as the
/// bounding box of the inverse images of its corners.
pub open spec fn visible_region(v: Viewport) -> crate::geom::Env {
    let x0 = doc_floor(v.transform.x, 0);
    let x1 = doc_floor(v.transform.x, v.width as int);
    let y0 = doc_floor(v.transform.y, 0);
    let y1 = doc_floor(v.transform.y, v.height as int);
    crate::geom::Env {
        min_x: (if x0 <= x1 { x0 } else { x1 }) as i64,
        min_y: (if y0 <= y1 { y0 } else { y1 }) as i64,
        max_x: (if x0 <= x1 { x1 } else { x0 }) as i64,
        max_y: (if y0 <= y1 { y1 } else { y0 }) as i64,
    }
}

/// The translation numerator after a pan of `dx` screen units.
pub open spec fn pan_num(a: Axis, dx: int) -> int {
    a.tn - dx * a.d
}

/// Whether a pan by `dx` keeps the axis translation within its caps.
pub open spec fn pan_axis_fits(a: Axis, dx: int) -> bool {
    &&& -(a.d * SHIFT_LIMIT) <= pan_num(a, dx) <= a.d * SHIFT_LIMIT
    &&& -TRANS_LIMIT <= pan_num(a, dx) <= TRANS_LIMIT
}

/// The axis that results from zooming by the factor `fnum / fden` about
/// the integer screen coordinate `anchor`, written over plain integers;
/// the anchor keeps its document coordinate exactly.
pub open spec fn zoom_sn(a: Axis, fnum: int) -> int {
    a.sn * fnum
}

pub open spec fn zoom_d(a: Axis, fden: int) -> int {
    a.d * fden
}

pub open spec fn zoom_tn(a: Axis, fnum: int, fden: int, anchor: int) -> int {
    anchor * a.d * fden - fnum * (anchor * a.d - a.tn)
}

/// Whether a zoom by `fnum / fden` about `anchor` keeps the axis within
/// all of its caps.
pub open spec fn zoom_axis_fits(a: Axis, fnum: int, fden: int, anchor: int) -> bool {
    let sn2 = zoom_sn(a, fnum);
    let d2 = zoom_d(a, fden);
    let tn2 = zoom_tn(a, fnum, fden, anchor);
    &&& d2 <= DEN_LIMIT
    &&& sn2 <= d2 * ZOOM_LIMIT
    &&& d2 <= sn2 * ZOOM_LIMIT
    &&& -(d2 * SHIFT_LIMIT) <= tn2 <= d2 * SHIFT_LIMIT
    &&& -TRANS_LIMIT <= tn2 <= TRANS_LIMIT
}

/// Floor division of `n` by `den`, exact on the whole `i128` range that
/// the transforms produce.
fn floor_div(n: i128, den: i128) -> (q: i128)
    requires
        1 <= den,
        n as int > i128::MIN as int,
    ensures
        q == n as int / den as int,
{
    if n >= 0 {
        let m = (n as u128) / (den as u128);
        proof {
            assert(n as int / den as int == (n as u128) as int / (den as u128) as int);
        }
        m as i128
    } else {
        let m = (-n) as u128;
        let q0 = m / (den as u128);
        let r0 = m % (den as u128);
        proof {
            vstd::arithmetic::div_mod::lemma_fundamental_div_mod(m as int, den as int);
            assert(q0 as int <= m as int) by {
                vstd::arithmetic::div_mod::lemma_div_nonincreasing(m as int, den as int);
            }
        }
        if r0 == 0 {
            proof {
                assert(n as int == (-(q0 as int)) * (den as int) + 0) by (nonlinear_arith)
                    requires
                        n as int == -(m as int),
                        m as int == (den as int) * (q0 as int) + (r0 as int),
                        r0 as int == 0,
                ;
                lemma_fundamental_div_mod_converse(n as int, den as int, -(q0 as int), 0);
            }
            -(q0 as i128)
        } else {
            proof {
                assert(n as int == (-(q0 as int) - 1) * (den as int) + (den as int - r0 as int))
                    by (nonlinear_arith)
                    requires
                        n as int == -(m as int),
                        m as int == (den as int) * (q0 as int) + (r0 as int),
                ;
                lemma_fundamental_div_mod_converse(
                    n as int,
                    den as int,
                    -(q0 as int) - 1,
                    den as int - r0 as int,
                );
            }
            -(q0 as i128) - 1
        }
    }
}

/// `|n| <= den * bound` bounds the floor quotient by `bound`.
proof fn lemma_floor_div_bound(n: int, den: int, bound: int)
    requires
        1 <= den,
        0 <= bound,
        -(den * bound) <= n <= den * bound,
    ensures
        -bound <= n / den <= bound,
{
    lemma_div_is_ordered(n, den * bound, den);
    lemma_div_by_multiple(bound, den);
    assert(bound * den == den * bound) by (nonlinear_arith);
    lemma_div_is_ordered(-(den * bound), n, den);
    assert(-(den * bound) == (-bound) * den + 0) by (nonlinear_arith);
    lemma_fundamental_div_mod_converse(-(den * bound), den, -bound, 0);
}

impl Viewport {
    /// A fresh viewport: identity transform, zero size.
    pub fn new() -> (v: Viewport)
        ensures
            viewport_wf(v),
            v.width == 0 && v.height == 0,
            v.transform.x == (Axis { sn: 1, tn: 0, d: 1 }),
            v.transform.y == (Axis { sn: 1, tn: 0, d: 1 }),
    {
        Viewport {
            width: 0,
            height: 0,
            transform: Transform2 {
                x: Axis { sn: 1, tn: 0, d: 1 },
                y: Axis { sn: 1, tn: 0, d: 1 },
            },
        }
    }

    /// Sets the screen size; the transform is untouched.
    pub fn resize(&mut self, width: i32, height: i32)
        requires
            0 <= width <= COORD_LIMIT,
            0 <= height <= COORD_LIMIT,
        ensures
            *final(self) == (Viewport { width, height, ..*old(self) }),
    {
        self.width = width;
        self.height = height;
    }

    /// Maps a document point to screen coordinates, each axis rounded
    /// toward minus infinity; exact otherwise.
    pub fn transform_to_viewport(&self, p: Pt) -> (r: Pt)
        requires
            viewport_wf(*self),
            crate::geom::pt_in_range(p),
        ensures
            r.x == screen_floor(self.transform.x, p.x as int),
            r.y == screen_floor(self.transform.y, p.y as int),
    {
        Pt {
            x: axis_to_screen(&self.transform.x, p.x),
            y: axis_to_screen(&self.transform.y, p.y),
        }
    }

    /// Maps an integer screen point to the document coordinate shown
    /// there, each axis rounded toward minus infinity; exact otherwise.
    /// The result can exceed the document coordinate range when the view
    /// is far from the origin; callers check before committing it.
    pub fn normalize_from_viewport(&self, p: Pt) -> (r: Pt)
        requires
            viewport_wf(*self),
            crate::geom::pt_in_range(p),
        ensures
            r.x == doc_floor(self.transform.x, p.x as int),
            r.y == doc_floor(self.transform.y, p.y as int),
    {
        Pt {
            x: axis_to_doc(&self.transform.x, p.x),
            y: axis_to_doc(&self.transform.y, p.y),
        }
    }

    /// The document-space axis-aligned box covering the whole screen
    /// rectangle: the bounding box of the inverse images of its corners.
    /// The transform is axis-aligned, so the two diagonal corners span
    /// the same box as all four.
    pub fn normalized(&self) -> (e: Env)
        requires
            viewport_wf(*self),
        ensures
            e.min_x == vstd::math::min(
                doc_floor(self.transform.x, 0),
                doc_floor(self.transform.x, self.width as int),
            ),
            e.max_x == vstd::math::max(
                doc_floor(self.transform.x, 0),
                doc_floor(self.transform.x, self.width as int),
            ),
            e.min_y == vstd::math::min(
                doc_floor(self.transform.y, 0),
                doc_floor(self.transform.y, self.height as int),
            ),
            e.max_y == vstd::math::max(
                doc_floor(self.transform.y, 0),
                doc_floor(self.transform.y, self.height as int),
            ),
            crate::geom::env_wf(e),
            e == visible_region(*self),
    {
        let x0 = axis_to_doc(&self.transform.x, 0);
        let x1 = axis_to_doc(&self.transform.x, self.width as i64);
        let y0 = axis_to_doc(&self.transform.y, 0);
        let y1 = axis_to_doc(&self.transform.y, self.height as i64);
        Env {
            min_x: if x0 <= x1 { x0 } else { x1 },
            min_y: if y0 <= y1 { y0 } else { y1 },
            max_x: if x0 <= x1 { x1 } else { x0 },
            max_y: if y0 <= y1 { y1 } else { y0 },
        }
    }

    /// Pans by `(dx, dy)` screen units: the transform is translated by
    /// `(-dx / scale_x, -dy / scale_y)` in document units, which moves
    /// each translation numerator by exactly `-dx * d`. Returns whether
    /// the pan was applied; a pan that would leave the representable
    /// range is rejected whole and changes nothing.
    pub fn pan(&mut self, dx: i64, dy: i64) -> (applied: bool)
        requires
            viewport_wf(*old(self)),
            -2 * COORD_LIMIT <= dx <= 2 * COORD_LIMIT,
            -2 * COORD_LIMIT <= dy <= 2 * COORD_LIMIT,
        ensures
            viewport_wf(*final(self)),
            applied == (pan_axis_fits(old(self).transform.x, dx as int) && pan_axis_fits(
                old(self).transform.y,
                dy as int,
            )),
            applied ==> *final(self) == (Viewport {
                transform: Transform2 {
                    x: Axis {
                        tn: (old(self).transform.x.tn - dx * old(self).transform.x.d) as i64,
                        ..old(self).transform.x
                    },
                    y: Axis {
                        tn: (old(self).transform.y.tn - dy * old(self).transform.y.d) as i64,
                        ..old(self).transform.y
                    },
                },
                ..*old(self)
            }),
            !applied ==> *final(self) == *old(self),
    {
        let ax = self.transform.x;
        let ay = self.transform.y;
        proof {
            crate::geom::lemma_mul_bound(dx as int, ax.d as int, 2 * COORD_LIMIT as int, DEN_LIMIT as int);
            crate::geom::lemma_mul_bound(dy as int, ay.d as int, 2 * COORD_LIMIT as int, DEN_LIMIT as int);
        }
        let ntx: i128 = ax.tn as i128 - dx as i128 * ax.d as i128;
        let nty: i128 = ay.tn as i128 - dy as i128 * ay.d as i128;
        if trans_ok(ax.d, ntx) && trans_ok(ay.d, nty) {
            self.transform.x.tn = ntx as i64;
            self.transform.y.tn = nty as i64;
            true
        } else {
            false
        }
    }

    /// Zooms by the factor `1 + dn / dd` about the screen point
    /// `(ax, ay)`: both axis scales are multiplied by `(dd + dn) / dd`,
    /// and the translations are chosen so that the anchor point shows
    /// the same document point before and after, exactly. Returns
    /// whether the zoom was applied: a factor that is not positive, or a
    /// result outside the representable range, is rejected whole.
    pub fn zoom(&mut self, dn: i32, dd: i32, ax: i64, ay: i64) -> (applied: bool)
        requires
            viewport_wf(*old(self)),
            -COORD_LIMIT <= ax <= COORD_LIMIT,
            -COORD_LIMIT <= ay <= COORD_LIMIT,
        ensures
            viewport_wf(*final(self)),
            applied == (dd >= 1 && dd + dn >= 1 && zoom_axis_fits(
                old(self).transform.x,
                (dd + dn) as int,
                dd as int,
                ax as int,
            ) && zoom_axis_fits(old(self).transform.y, (dd + dn) as int, dd as int, ay as int)),
            applied ==> {
                let f = (dd + dn) as int;
                let o = old(self).transform;
                &&& final(self).transform.x.sn == zoom_sn(o.x, f)
                &&& final(self).transform.x.d == zoom_d(o.x, dd as int)
                &&& final(self).transform.x.tn == zoom_tn(o.x, f, dd as int, ax as int)
                &&& final(self).transform.y.sn == zoom_sn(o.y, f)
                &&& final(self).transform.y.d == zoom_d(o.y, dd as int)
                &&& final(self).transform.y.tn == zoom_tn(o.y, f, dd as int, ay as int)
                &&& final(self).width == old(self).width
                &&& final(self).height == old(self).height
            },
            // Zoom is about a point: the anchor's exact document
            // coordinate is unchanged on both axes.
            applied ==> qeq(
                doc_num_q(old(self).transform.x, ax as int, 1),
                old(self).transform.x.sn as int,
                doc_num_q(final(self).transform.x, ax as int, 1),
                final(self).transform.x.sn as int,
            ) && qeq(
                doc_num_q(old(self).transform.y, ay as int, 1),
                old(self).transform.y.sn as int,
                doc_num_q(final(self).transform.y, ay as int, 1),
                final(self).transform.y.sn as int,
            ),
            !applied ==> *final(self) == *old(self),
    {
        if dd < 1 || (dd as i64) + (dn as i64) < 1 {
            return false;
        }
        let f: i64 = (dd as i64) + (dn as i64);
        let oldx = self.transform.x;
        let oldy = self.transform.y;
        let x_new = zoom_axis(&oldx, f, dd as i64, ax);
        let y_new = zoom_axis(&oldy, f, dd as i64, ay);
        match (x_new, y_new) {
            (Some(nx), Some(ny)) => {
                self.transform.x = nx;
                self.transform.y = ny;
                proof {
                    lemma_zoom_anchor(oldx, f as int, dd as int, ax as int);
                    lemma_zoom_anchor(oldy, f as int, dd as int, ay as int);
                }
                true
            },
            _ => false,
        }
    }
}

/// Checks the translation caps for an axis with denominator `d`.
fn trans_ok(d: i64, tn: i128) -> (ok: bool)
    requires
        1 <= d <= DEN_LIMIT,
    ensures
        ok == (-(d * SHIFT_LIMIT) <= tn <= d * SHIFT_LIMIT && -TRANS_LIMIT <= tn <= TRANS_LIMIT),
{
    let cap: i128 = d as i128 * SHIFT_LIMIT as i128;
    -cap <= tn && tn <= cap && -(TRANS_LIMIT as i128) <= tn && tn <= TRANS_LIMIT as i128
}

/// Computes the zoomed axis, or `None` when a cap would be exceeded.
fn zoom_axis(a: &Axis, f: i64, fd: i64, anchor: i64) -> (r: Option<Axis>)
    requires
        axis_wf(*a),
        1 <= f <= 0x1_0000_0000,
        1 <= fd <= 0x8000_0000,
        -COORD_LIMIT <= anchor <= COORD_LIMIT,
    ensures
        match r {
            Some(n) => {
                &&& zoom_axis_fits(*a, f as int, fd as int, anchor as int)
                &&& n.sn == zoom_sn(*a, f as int)
                &&& n.d == zoom_d(*a, fd as int)
                &&& n.tn == zoom_tn(*a, f as int, fd as int, anchor as int)
                &&& axis_wf(n)
            },
            None => !zoom_axis_fits(*a, f as int, fd as int, anchor as int),
        },
{
    proof {
        crate::geom::lemma_mul_bound(a.sn as int, f as int, 0x4000_0000_0000_0000, 0x1_0000_0000);
        crate::geom::lemma_mul_bound(a.d as int, fd as int, DEN_LIMIT as int, 0x8000_0000);
        crate::geom::lemma_mul_bound(anchor as int, a.d as int, COORD_LIMIT as int, DEN_LIMIT as int);
    }
    let sn2: i128 = a.sn as i128 * f as i128;
    let d2: i128 = a.d as i128 * fd as i128;
    let ad: i128 = anchor as i128 * a.d as i128;
    proof {
        crate::geom::lemma_mul_bound(ad as int, fd as int, 0x1000_0000_0000_0000_0000, 0x8000_0000);
        crate::geom::lemma_mul_bound(
            f as int,
            ad as int - a.tn as int,
            0x1_0000_0000,
            0x2000_0000_0000_0000_0000,
        );
    }
    let tn2: i128 = ad * fd as i128 - f as i128 * (ad - a.tn as i128);
    if d2 > DEN_LIMIT as i128 {
        return None;
    }
    proof {
        crate::geom::lemma_mul_bound(d2 as int, ZOOM_LIMIT as int, DEN_LIMIT as int, ZOOM_LIMIT as int);
        crate::geom::lemma_mul_bound(sn2 as int, ZOOM_LIMIT as int, 0x4000_0000_0000_0000_0000_0000, ZOOM_LIMIT as int);
    }
    let zcap: i128 = d2 * ZOOM_LIMIT as i128;
    if sn2 > zcap {
        return None;
    }
    if d2 > sn2 * ZOOM_LIMIT as i128 {
        return None;
    }
    proof {
        crate::geom::lemma_mul_bound(d2 as int, SHIFT_LIMIT as int, DEN_LIMIT as int, SHIFT_LIMIT as int);
        assert(d2 as int >= 1 && sn2 as int >= 1) by (nonlinear_arith)
            requires
                d2 as int == a.d as int * fd as int,
                sn2 as int == a.sn as int * f as int,
                a.d as int >= 1 && fd as int >= 1 && a.sn as int >= 1 && f as int >= 1,
        ;
    }
    let scap: i128 = d2 * SHIFT_LIMIT as i128;
    if tn2 < -scap || tn2 > scap || tn2 < -(TRANS_LIMIT as i128) || tn2 > TRANS_LIMIT as i128 {
        return None;
    }
    Some(Axis { sn: sn2 as i64, tn: tn2 as i64, d: d2 as i64 })
}

/// The zoom formulas keep the anchor's exact document coordinate: the
/// rational `(anchor * d - tn) / sn` is unchanged by a zoom about
/// `anchor`.
proof fn lemma_zoom_anchor(a: Axis, f: int, fd: int, anchor: int)
    requires
        a.sn >= 1,
        f >= 1,
    ensures
        qeq(
            doc_num_q(a, anchor, 1),
            a.sn as int,
            anchor * zoom_d(a, fd) - zoom_tn(a, f, fd, anchor),
            zoom_sn(a, f),
        ),
{
    assert((anchor * a.d - a.tn) * (a.sn * f) == (anchor * (a.d * fd) - (anchor * a.d * fd - f * (
    anchor * a.d - a.tn))) * a.sn) by (nonlinear_arith);
}

/// Maps one axis of an integer document coordinate to the screen.
fn axis_to_screen(a: &Axis, x: i64) -> (r: i64)
    requires
        axis_wf(*a),
        -COORD_LIMIT <= x <= COORD_LIMIT,
    ensures
        r == screen_floor(*a, x as int),
        -0x8000_0000_0000_0000_0000 <= r <= 0x8000_0000_0000_0000_0000,
{
    proof {
        crate::geom::lemma_mul_bound(a.sn as int, x as int, 0x4000_0000_0000_0000, COORD_LIMIT as int);
    }
    let num: i128 = a.sn as i128 * x as i128 + a.tn as i128;
    let q = floor_div(num, a.d as i128);
    proof {
        // |sn * x + tn| <= d * (ZOOM_LIMIT * COORD_LIMIT + SHIFT_LIMIT),
        // so the floor stays well inside the i64 range.
        assert(a.sn * x <= (a.d * ZOOM_LIMIT) * COORD_LIMIT && -((a.d * ZOOM_LIMIT) * COORD_LIMIT)
            <= a.sn * x) by (nonlinear_arith)
            requires
                1 <= a.sn <= a.d * ZOOM_LIMIT,
                -COORD_LIMIT <= x <= COORD_LIMIT,
                1 <= a.d,
        ;
        assert((a.d * ZOOM_LIMIT) * COORD_LIMIT + a.d * SHIFT_LIMIT == a.d * (ZOOM_LIMIT
            * COORD_LIMIT + SHIFT_LIMIT)) by (nonlinear_arith);
        lemma_floor_div_bound(
            num as int,
            a.d as int,
            ZOOM_LIMIT as int * COORD_LIMIT as int + SHIFT_LIMIT as int,
        );
    }
    q as i64
}

/// Maps one axis of an integer screen coordinate back to the document.
fn axis_to_doc(a: &Axis, y: i64) -> (r: i64)
    requires
        axis_wf(*a),
        -COORD_LIMIT <= y <= COORD_LIMIT,
    ensures
        r == doc_floor(*a, y as int),
        -0x2000_0000_0000_0000_0000 <= r <= 0x2000_0000_0000_0000_0000,
{
    proof {
        crate::geom::lemma_mul_bound(y as int, a.d as int, COORD_LIMIT as int, DEN_LIMIT as int);
    }
    let num: i128 = y as i128 * a.d as i128 - a.tn as i128;
    let q = floor_div(num, a.sn as i128);
    proof {
        // |y * d - tn| <= d * (COORD_LIMIT + SHIFT_LIMIT)
        //              <= sn * ZOOM_LIMIT * (COORD_LIMIT + SHIFT_LIMIT).
        assert(y * a.d <= a.d * COORD_LIMIT && -(a.d * COORD_LIMIT) <= y * a.d)
            by (nonlinear_arith)
            requires
                -COORD_LIMIT <= y <= COORD_LIMIT,
                1 <= a.d,
        ;
        assert(a.d * COORD_LIMIT + a.d * SHIFT_LIMIT <= (a.sn * ZOOM_LIMIT) * (COORD_LIMIT
            + SHIFT_LIMIT) && (a.sn * ZOOM_LIMIT) * (COORD_LIMIT + SHIFT_LIMIT) == a.sn
            * (ZOOM_LIMIT * (COORD_LIMIT + SHIFT_LIMIT))) by (nonlinear_arith)
            requires
                a.d <= a.sn * ZOOM_LIMIT,
                1 <= a.sn,
                1 <= a.d,
        ;
        lemma_floor_div_bound(
            num as int,
            a.sn as int,
            ZOOM_LIMIT as int * (COORD_LIMIT as int + SHIFT_LIMIT as int),
        );
    }
    q as i64
}

/// Converting a document coordinate to the screen and back is the
/// identity, exactly, before any rounding: the exact screen position of
/// `x` maps back to the rational `x / 1`. This holds for every
/// well-formed axis, so panning and zooming never drift the round trip.
pub proof fn lemma_transform_round_trip(a: Axis, x: int)
    requires
        axis_wf(a),
    ensures
        qeq(doc_num_q(a, screen_num(a, x), a.d as int), a.sn * a.d, x, 1),
{
    assert(((a.sn * x + a.tn) * a.d - a.tn * a.d) * 1 == x * (a.sn * a.d)) by (nonlinear_arith);
}

/// Pans accumulate: panning by `dx1` and then by `dx2` yields exactly
/// the translation of one pan by `dx1 + dx2`, on any axis whose first
/// pan stayed representable. Each pan event carries the delta since
/// the previous event, so repeated small drags equal one large drag.
pub proof fn lemma_pan_accumulation(a: Axis, dx1: int, dx2: int)
    requires
        -TRANS_LIMIT <= pan_num(a, dx1) <= TRANS_LIMIT,
    ensures
        pan_num(Axis { tn: pan_num(a, dx1) as i64, ..a }, dx2) == pan_num(a, dx1 + dx2),
{
    assert((a.tn - dx1 * a.d) - dx2 * a.d == a.tn - (dx1 + dx2) * a.d) by (nonlinear_arith);
}

} // verus!
