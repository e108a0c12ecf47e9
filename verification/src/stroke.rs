//! The stroke entity: a polyline with a drawing style. In-progress
//! strokes hold screen coordinates; committed strokes hold document
//! coordinates and carry at least two points.

use vstd::prelude::*;

use crate::geom::{
    env_of, pt_in_range, segs_intersect, seg_intersects, envelope_of_points, Env, Pt,
};
use crate::viewport::{doc_floor, Viewport};

verus! {

/// An opaque ink color.
#[derive(Clone, Copy, Debug, PartialEq, Eq, Structural)]
pub struct Color {
    pub r: u8,
    pub g: u8,
    pub b: u8,
}

/// A polyline stroke with its style. `alpha` is coverage in steps of
/// 1/255, 255 being opaque.
#[derive(Debug)]
pub struct Stroke {
    pub points: Vec<Pt>,
    pub color: Color,
    pub alpha: u8,
}

/// Every point of the sequence lies in the document coordinate range.
pub open spec fn pts_in_range(pts: Seq<Pt>) -> bool {
    forall|i: int| 0 <= i < pts.len() ==> pt_in_range(#[trigger] pts[i])
}

/// A committed stroke: at least two points, all within range.
pub open spec fn stroke_valid(s: Stroke) -> bool {
    s.points@.len() >= 2 && pts_in_range(s.points@)
}

/// Whether some segment of `p` intersects some segment of `q`.
pub open spec fn strokes_intersect(p: Seq<Pt>, q: Seq<Pt>) -> bool {
    exists|i: int, j: int|
        0 <= i && i + 1 < p.len() && 0 <= j && j + 1 < q.len() && #[trigger] segs_intersect(
            p[i],
            p[i + 1],
            q[j],
            q[j + 1],
        )
}

impl Stroke {
    /// A new in-progress stroke starting at `(x, y)`.
    pub fn start(x: i64, y: i64, color: Color, alpha: u8) -> (s: Stroke)
        ensures
            s.points@ == seq![Pt { x, y }],
            s.color == color,
            s.alpha == alpha,
    {
        let mut points: Vec<Pt> = Vec::new();
        points.push(Pt { x, y });
        proof {
            assert(points@ =~= seq![Pt { x, y }]);
        }
        Stroke { points, color, alpha }
    }

    /// Appends a point in the stroke's current coordinate space.
    pub fn add(&mut self, x: i64, y: i64)
        ensures
            final(self).points@ == old(self).points@.push(Pt { x, y }),
            final(self).color == old(self).color,
            final(self).alpha == old(self).alpha,
    {
        self.points.push(Pt { x, y });
    }

    /// The axis-aligned bounding box over all points, the index key.
    pub fn envelope(&self) -> (e: Env)
        requires
            self.points@.len() >= 1,
        ensures
            e == env_of(self.points@),
    {
        envelope_of_points(&self.points)
    }

    /// Whether any segment of `self` intersects any segment of `other`,
    /// by exact segment-segment intersection; shared endpoints and
    /// collinear overlap count.
    pub fn intersects(&self, other: &Stroke) -> (r: bool)
        requires
            pts_in_range(self.points@),
            pts_in_range(other.points@),
        ensures
            r == strokes_intersect(self.points@, other.points@),
    {
        let n = self.points.len();
        let m = other.points.len();
        if n < 2 || m < 2 {
            return false;
        }
        let mut i: usize = 0;
        while i < n - 1
            invariant
                n == self.points@.len(),
                m == other.points@.len(),
                n >= 2,
                m >= 2,
                0 <= i <= n,
                pts_in_range(self.points@),
                pts_in_range(other.points@),
                forall|i2: int, j2: int|
                    0 <= i2 < i && i2 + 1 < n && 0 <= j2 && j2 + 1 < m ==> !(#[trigger] segs_intersect(
                        self.points@[i2],
                        self.points@[i2 + 1],
                        other.points@[j2],
                        other.points@[j2 + 1],
                    )),
            decreases n - i,
        {
            let mut j: usize = 0;
            while j < m - 1
                invariant
                    n == self.points@.len(),
                    m == other.points@.len(),
                    m >= 2,
                    0 <= i,
                    i + 1 < n,
                    0 <= j <= m,
                    pts_in_range(self.points@),
                    pts_in_range(other.points@),
                    forall|j2: int|
                        0 <= j2 < j && j2 + 1 < m ==> !(#[trigger] segs_intersect(
                            self.points@[i as int],
                            self.points@[i + 1],
                            other.points@[j2],
                            other.points@[j2 + 1],
                        )),
                decreases m - j,
            {
                if seg_intersects(
                    self.points[i],
                    self.points[i + 1],
                    other.points[j],
                    other.points[j + 1],
                ) {
                    return true;
                }
                j = j + 1;
            }
            i = i + 1;
        }
        false
    }

    /// An element-for-element copy carrying the same points and style.
    pub fn duplicate(&self) -> (r: Stroke)
        ensures
            r.points@ == self.points@,
            r.color == self.color,
            r.alpha == self.alpha,
    {
        let mut pts: Vec<Pt> = Vec::new();
        let n = self.points.len();
        let mut i: usize = 0;
        while i < n
            invariant
                n == self.points@.len(),
                0 <= i <= n,
                pts@ == self.points@.subrange(0, i as int),
            decreases n - i,
        {
            pts.push(self.points[i]);
            proof {
                assert(pts@ =~= self.points@.subrange(0, i + 1));
            }
            i = i + 1;
        }
        proof {
            assert(pts@ =~= self.points@);
        }
        Stroke { points: pts, color: self.color, alpha: self.alpha }
    }

    /// Converts a screen-space stroke to document space through the
    /// viewport, point for point; happens exactly once, at commit.
    /// Returns `None` when some converted point falls outside the
    /// document coordinate range, which the caller reports.
    pub fn normalize(&self, viewport: &Viewport) -> (r: Option<Stroke>)
        requires
            crate::viewport::viewport_wf(*viewport),
            pts_in_range(self.points@),
        ensures
            match r {
                Some(s) => {
                    &&& s.points@.len() == self.points@.len()
                    &&& forall|i: int|
                        0 <= i < self.points@.len() ==> #[trigger] s.points@[i] == (Pt {
                            x: doc_floor(
                                viewport.transform.x,
                                self.points@[i].x as int,
                            ) as i64,
                            y: doc_floor(
                                viewport.transform.y,
                                self.points@[i].y as int,
                            ) as i64,
                        })
                    &&& pts_in_range(s.points@)
                    &&& s.color == self.color
                    &&& s.alpha == self.alpha
                },
                None => exists|i: int|
                    0 <= i < self.points@.len() && !pt_in_range(
                        Pt {
                            x: doc_floor(viewport.transform.x, (#[trigger] self.points@[i]).x as int) as i64,
                            y: doc_floor(viewport.transform.y, self.points@[i].y as int) as i64,
                        },
                    ),
            },
    {
        let mut out: Vec<Pt> = Vec::new();
        let n = self.points.len();
        let mut i: usize = 0;
        while i < n
            invariant
                n == self.points@.len(),
                0 <= i <= n,
                crate::viewport::viewport_wf(*viewport),
                pts_in_range(self.points@),
                out@.len() == i,
                forall|k: int|
                    0 <= k < i ==> #[trigger] out@[k] == (Pt {
                        x: doc_floor(viewport.transform.x, self.points@[k].x as int) as i64,
                        y: doc_floor(viewport.transform.y, self.points@[k].y as int) as i64,
                    }),
                pts_in_range(out@),
            decreases n - i,
        {
            let p = viewport.normalize_from_viewport(self.points[i]);
            if p.x < -crate::geom::COORD_LIMIT || p.x > crate::geom::COORD_LIMIT || p.y
                < -crate::geom::COORD_LIMIT || p.y > crate::geom::COORD_LIMIT {
                return None;
            }
            out.push(p);
            i = i + 1;
        }
        Some(Stroke { points: out, color: self.color, alpha: self.alpha })
    }
}

} // verus!
