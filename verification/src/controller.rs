//! The document controller: one state value owning the spatial
//! document, the in-progress stroke, the viewport and the active tool,
//! mutated by a serial stream of abstract actions.

use vstd::prelude::*;

use crate::erase::{object_erased, split_path_erased, object_erase, split_erase_path};
use crate::geom::{Pt, COORD_LIMIT};
use crate::index::{sdata, SpatialDocument, StrokeData};
use crate::stroke::{pts_in_range, Color, Stroke};
use crate::viewport::{
    doc_floor, pan_axis_fits, pan_num, qeq, doc_num_q, screen_floor, visible_region,
    zoom_axis_fits, zoom_d, zoom_sn, zoom_tn, viewport_wf, Axis, Transform2, Viewport,
};
use crate::index::data_in_region;

verus! {

/// Half the width of the stroke eraser's swept band, in document
/// units: a segment within this distance of the eraser path is erased.
pub const ERASE_RADIUS: i64 = 2;

/// The active interaction tool.
#[derive(Clone, Copy, Debug, PartialEq, Eq, Structural)]
pub enum Tool {
    Pen,
    Eraser,
    ObjEraser,
    Hand,
}

/// A pointer position report, used as the zoom anchor.
#[derive(Clone, Copy, Debug, PartialEq, Eq, Structural)]
pub struct MotionEvent {
    pub x: i64,
    pub y: i64,
}

/// A zoom step: the scale factor is `1 + dscale_num / dscale_den`.
#[derive(Clone, Copy, Debug, PartialEq, Eq, Structural)]
pub struct ZoomEvent {
    pub dscale_num: i32,
    pub dscale_den: i32,
}

/// A screen-size report.
#[derive(Clone, Copy, Debug, PartialEq, Eq, Structural)]
pub struct AllocationAction {
    pub width: i32,
    pub height: i32,
}

/// A pointer-press at screen coordinates.
#[derive(Clone, Copy, Debug, PartialEq, Eq, Structural)]
pub struct MousePressAction {
    pub x: i64,
    pub y: i64,
}

/// A pointer-drag report at screen coordinates.
#[derive(Clone, Copy, Debug, PartialEq, Eq, Structural)]
pub struct MouseMotionAction {
    pub x: i64,
    pub y: i64,
}

/// A pointer-release at screen coordinates.
#[derive(Clone, Copy, Debug, PartialEq, Eq, Structural)]
pub struct MouseReleaseAction {
    pub x: i64,
    pub y: i64,
}

/// A pan report: within a scroll gesture the values are cumulative
/// offsets from the gesture start; outside one they are plain deltas.
#[derive(Clone, Copy, Debug, PartialEq, Eq, Structural)]
pub struct ScrollEvent {
    pub dx: i64,
    pub dy: i64,
}

/// The cumulative offset already applied within a scroll gesture; the
/// controller subtracts it so that repeated reports pan incrementally.
#[derive(Clone, Copy, Debug, PartialEq, Eq, Structural)]
pub struct ScrollState {
    pub x_old: i64,
    pub y_old: i64,
}

/// An abstract input action, pre-mapped from device events.
#[derive(Clone, Copy, Debug)]
pub enum Action {
    MousePress(MousePressAction),
    MouseMotion(MouseMotionAction),
    MouseRelease(MouseReleaseAction),
    Allocation(AllocationAction),
    Zoom(ZoomEvent),
    Scroll(ScrollEvent),
    Motion(MotionEvent),
    ToolPen,
    ToolEraser,
    ToolObjEraser,
    ToolHand,
    ScrollStart,
    ScrollEnd,
}

/// How a dispatched action can fail; the state is left unchanged
/// except as the dispatch contract says.
#[derive(Clone, Copy, Debug, PartialEq, Eq, Structural)]
pub enum DispatchError {
    /// A motion or release arrived with no gesture in progress.
    NoStrokeInProgress,
    /// A coordinate lies outside the representable document range.
    OutOfRange,
}

/// The whole interactive state.
pub struct AppState {
    /// The committed document.
    pub drawing: SpatialDocument,
    /// The stroke being drawn, in screen coordinates.
    pub stroke: Option<Stroke>,
    pub viewport: Viewport,
    /// The running offset of an active scroll gesture.
    pub scroll_state: Option<ScrollState>,
    /// The last reported pointer position, the zoom anchor.
    pub pointer_old: Option<(i64, i64)>,
    pub tool: Tool,
}

/// A screen coordinate the controller accepts.
pub open spec fn coord_ok(c: int) -> bool {
    -COORD_LIMIT <= c <= COORD_LIMIT
}

/// Well-formedness of the controller state.
pub open spec fn app_wf(s: AppState) -> bool {
    &&& s.drawing.wf()
    &&& viewport_wf(s.viewport)
    &&& match s.stroke {
        Some(st) => st.points@.len() >= 1 && pts_in_range(st.points@),
        None => true,
    }
    &&& match s.pointer_old {
        Some(p) => coord_ok(p.0 as int) && coord_ok(p.1 as int),
        None => true,
    }
    &&& match s.scroll_state {
        Some(st) => coord_ok(st.x_old as int) && coord_ok(st.y_old as int),
        None => true,
    }
}

/// The ink color a tool draws with: opaque blue for the pen, white for
/// the erasers, which is not rendered as ink.
pub open spec fn tool_color(t: Tool) -> Color {
    match t {
        Tool::Pen => Color { r: 0, g: 0, b: 255 },
        _ => Color { r: 255, g: 255, b: 255 },
    }
}

/// One point converted from screen to document space.
pub open spec fn norm_pt(v: Viewport, p: Pt) -> Pt {
    Pt {
        x: doc_floor(v.transform.x, p.x as int) as i64,
        y: doc_floor(v.transform.y, p.y as int) as i64,
    }
}

/// A polyline converted from screen to document space, point by point.
pub open spec fn norm_pts(v: Viewport, pts: Seq<Pt>) -> Seq<Pt> {
    pts.map_values(|p: Pt| norm_pt(v, p))
}

/// The viewport after a pan of `(dx, dy)` screen units, or unchanged
/// when the pan falls out of the representable range.
pub open spec fn pan_view(v: Viewport, dx: int, dy: int) -> Viewport {
    if pan_axis_fits(v.transform.x, dx) && pan_axis_fits(v.transform.y, dy) {
        Viewport {
            transform: Transform2 {
                x: Axis { tn: pan_num(v.transform.x, dx) as i64, ..v.transform.x },
                y: Axis { tn: pan_num(v.transform.y, dy) as i64, ..v.transform.y },
            },
            ..v
        }
    } else {
        v
    }
}

/// Whether a zoom applies at all: a positive factor that keeps both
/// axes within their caps.
pub open spec fn zoom_applies(v: Viewport, dn: int, dd: int, ax: int, ay: int) -> bool {
    &&& dd >= 1
    &&& dd + dn >= 1
    &&& zoom_axis_fits(v.transform.x, dd + dn, dd, ax)
    &&& zoom_axis_fits(v.transform.y, dd + dn, dd, ay)
}

/// The viewport after a zoom by `1 + dn / dd` about the screen point
/// `(ax, ay)`, or unchanged when the zoom is rejected.
pub open spec fn zoom_view(v: Viewport, dn: int, dd: int, ax: int, ay: int) -> Viewport {
    if zoom_applies(v, dn, dd, ax, ay) {
        Viewport {
            transform: Transform2 {
                x: Axis {
                    sn: zoom_sn(v.transform.x, dd + dn) as i64,
                    tn: zoom_tn(v.transform.x, dd + dn, dd, ax) as i64,
                    d: zoom_d(v.transform.x, dd) as i64,
                },
                y: Axis {
                    sn: zoom_sn(v.transform.y, dd + dn) as i64,
                    tn: zoom_tn(v.transform.y, dd + dn, dd, ay) as i64,
                    d: zoom_d(v.transform.y, dd) as i64,
                },
            },
            ..v
        }
    } else {
        v
    }
}

/// What the committed document becomes when a finished stroke in
/// document space is resolved by the active tool: the pen inserts it,
/// the stroke eraser split-erases along it, and the object eraser
/// deletes whatever it crosses.
pub open spec fn commit_doc(doc: Seq<StrokeData>, t: Tool, nd: Seq<Pt>, color: Color, alpha: u8) -> Seq<
    StrokeData,
> {
    match t {
        Tool::Pen => doc.push(StrokeData { pts: nd, color, alpha }),
        Tool::Eraser => split_path_erased(doc, nd, ERASE_RADIUS as int),
        Tool::ObjEraser => object_erased(doc, nd),
        Tool::Hand => doc,
    }
}

impl AppState {
    /// A fresh controller: empty document, identity viewport, pen tool,
    /// no gesture in progress.
    pub fn new() -> (s: AppState)
        ensures
            app_wf(s),
            s.drawing@ == Seq::<StrokeData>::empty(),
            s.stroke is None,
            s.viewport.transform.x == (Axis { sn: 1, tn: 0, d: 1 }),
            s.viewport.transform.y == (Axis { sn: 1, tn: 0, d: 1 }),
            s.viewport.width == 0 && s.viewport.height == 0,
            s.scroll_state is None,
            s.pointer_old is None,
            s.tool == Tool::Pen,
    {
        AppState {
            drawing: SpatialDocument::new(),
            stroke: None,
            viewport: Viewport::new(),
            scroll_state: None,
            pointer_old: None,
            tool: Tool::Pen,
        }
    }
}


impl AppState {
    /// Dispatches one action, mutating the state as the action's case
    /// below says and reporting misuse as a typed error. Actions are
    /// delivered one at a time, in arrival order, each fully processed
    /// before the next.
    pub fn dispatch(&mut self, action: Action) -> (r: Result<(), DispatchError>)
        requires
            app_wf(*old(self)),
        ensures
            app_wf(*final(self)),
            match action {
                Action::MousePress(e) => {
                    if !coord_ok(e.x as int) || !coord_ok(e.y as int) {
                        r == Err::<(), DispatchError>(DispatchError::OutOfRange) && *final(self)
                            == *old(self)
                    } else {
                        &&& r is Ok
                        &&& final(self).drawing == old(self).drawing
                        &&& final(self).viewport == old(self).viewport
                        &&& final(self).pointer_old == old(self).pointer_old
                        &&& final(self).tool == old(self).tool
                        &&& if old(self).tool is Hand {
                            final(self).stroke == old(self).stroke && final(self).scroll_state
                                == Some(ScrollState { x_old: e.x, y_old: e.y })
                        } else {
                            &&& final(self).scroll_state == old(self).scroll_state
                            &&& match final(self).stroke {
                                Some(st) => st.points@ == seq![Pt { x: e.x, y: e.y }] && st.color
                                    == tool_color(old(self).tool) && st.alpha == 255u8,
                                None => false,
                            }
                        }
                    }
                },
                Action::MouseMotion(e) => {
                    if !coord_ok(e.x as int) || !coord_ok(e.y as int) {
                        r == Err::<(), DispatchError>(DispatchError::OutOfRange) && *final(self)
                            == *old(self)
                    } else if old(self).tool is Hand {
                        match old(self).scroll_state {
                            Some(st) => {
                                &&& r is Ok
                                &&& final(self).viewport == pan_view(
                                    old(self).viewport,
                                    e.x - st.x_old,
                                    e.y - st.y_old,
                                )
                                &&& final(self).scroll_state == Some(
                                    ScrollState { x_old: e.x, y_old: e.y },
                                )
                                &&& final(self).drawing == old(self).drawing
                                &&& final(self).stroke == old(self).stroke
                                &&& final(self).pointer_old == old(self).pointer_old
                                &&& final(self).tool == old(self).tool
                            },
                            None => r == Err::<(), DispatchError>(
                                DispatchError::NoStrokeInProgress,
                            ) && *final(self) == *old(self),
                        }
                    } else {
                        match old(self).stroke {
                            Some(st) => {
                                &&& r is Ok
                                &&& final(self).drawing == old(self).drawing
                                &&& final(self).viewport == old(self).viewport
                                &&& final(self).scroll_state == old(self).scroll_state
                                &&& final(self).pointer_old == old(self).pointer_old
                                &&& final(self).tool == old(self).tool
                                &&& match final(self).stroke {
                                    Some(st2) => st2.points@ == st.points@.push(
                                        Pt { x: e.x, y: e.y },
                                    ) && st2.color == st.color && st2.alpha == st.alpha,
                                    None => false,
                                }
                            },
                            None => r == Err::<(), DispatchError>(
                                DispatchError::NoStrokeInProgress,
                            ) && *final(self) == *old(self),
                        }
                    }
                },
                Action::MouseRelease(e) => {
                    if !coord_ok(e.x as int) || !coord_ok(e.y as int) {
                        r == Err::<(), DispatchError>(DispatchError::OutOfRange) && *final(self)
                            == *old(self)
                    } else if old(self).tool is Hand {
                        &&& r is Ok
                        &&& final(self).scroll_state is None
                        &&& final(self).drawing == old(self).drawing
                        &&& final(self).stroke == old(self).stroke
                        &&& final(self).viewport == old(self).viewport
                        &&& final(self).pointer_old == old(self).pointer_old
                        &&& final(self).tool == old(self).tool
                    } else {
                        match old(self).stroke {
                            Some(st) => {
                                let full = st.points@.push(Pt { x: e.x, y: e.y });
                                let nd = norm_pts(old(self).viewport, full);
                                &&& final(self).stroke is None
                                &&& final(self).viewport == old(self).viewport
                                &&& final(self).scroll_state == old(self).scroll_state
                                &&& final(self).pointer_old == old(self).pointer_old
                                &&& final(self).tool == old(self).tool
                                &&& if pts_in_range(nd) {
                                    r is Ok && final(self).drawing@ == commit_doc(
                                        old(self).drawing@,
                                        old(self).tool,
                                        nd,
                                        st.color,
                                        st.alpha,
                                    )
                                } else {
                                    r == Err::<(), DispatchError>(DispatchError::OutOfRange)
                                        && final(self).drawing == old(self).drawing
                                }
                            },
                            None => r == Err::<(), DispatchError>(
                                DispatchError::NoStrokeInProgress,
                            ) && *final(self) == *old(self),
                        }
                    }
                },
                Action::Allocation(a) => {
                    if a.width < 0 || a.width > COORD_LIMIT as i32 || a.height < 0 || a.height
                        > COORD_LIMIT as i32 {
                        r == Err::<(), DispatchError>(DispatchError::OutOfRange) && *final(self)
                            == *old(self)
                    } else {
                        &&& r is Ok
                        &&& final(self).viewport == (Viewport {
                            width: a.width,
                            height: a.height,
                            ..old(self).viewport
                        })
                        &&& final(self).drawing == old(self).drawing
                        &&& final(self).stroke == old(self).stroke
                        &&& final(self).scroll_state == old(self).scroll_state
                        &&& final(self).pointer_old == old(self).pointer_old
                        &&& final(self).tool == old(self).tool
                    }
                },
                Action::Zoom(z) => {
                    let anchor = match old(self).pointer_old {
                        Some(p) => p,
                        None => (0int as i64, 0int as i64),
                    };
                    &&& r is Ok
                    &&& final(self).viewport == zoom_view(
                        old(self).viewport,
                        z.dscale_num as int,
                        z.dscale_den as int,
                        anchor.0 as int,
                        anchor.1 as int,
                    )
                    &&& zoom_applies(
                        old(self).viewport,
                        z.dscale_num as int,
                        z.dscale_den as int,
                        anchor.0 as int,
                        anchor.1 as int,
                    ) ==> qeq(
                        doc_num_q(old(self).viewport.transform.x, anchor.0 as int, 1),
                        old(self).viewport.transform.x.sn as int,
                        doc_num_q(final(self).viewport.transform.x, anchor.0 as int, 1),
                        final(self).viewport.transform.x.sn as int,
                    ) && qeq(
                        doc_num_q(old(self).viewport.transform.y, anchor.1 as int, 1),
                        old(self).viewport.transform.y.sn as int,
                        doc_num_q(final(self).viewport.transform.y, anchor.1 as int, 1),
                        final(self).viewport.transform.y.sn as int,
                    )
                    &&& final(self).drawing == old(self).drawing
                    &&& final(self).stroke == old(self).stroke
                    &&& final(self).scroll_state == old(self).scroll_state
                    &&& final(self).pointer_old == old(self).pointer_old
                    &&& final(self).tool == old(self).tool
                },
                Action::Scroll(e) => {
                    if !coord_ok(e.dx as int) || !coord_ok(e.dy as int) {
                        r == Err::<(), DispatchError>(DispatchError::OutOfRange) && *final(self)
                            == *old(self)
                    } else {
                        let (ddx, ddy) = match old(self).scroll_state {
                            Some(st) => (e.dx - st.x_old, e.dy - st.y_old),
                            None => (e.dx as int, e.dy as int),
                        };
                        &&& r is Ok
                        &&& final(self).viewport == pan_view(old(self).viewport, ddx, ddy)
                        &&& final(self).scroll_state == (match old(self).scroll_state {
                            Some(st) => Some(ScrollState { x_old: e.dx, y_old: e.dy }),
                            None => None::<ScrollState>,
                        })
                        &&& final(self).drawing == old(self).drawing
                        &&& final(self).stroke == old(self).stroke
                        &&& final(self).pointer_old == old(self).pointer_old
                        &&& final(self).tool == old(self).tool
                    }
                },
                Action::Motion(e) => {
                    if !coord_ok(e.x as int) || !coord_ok(e.y as int) {
                        r == Err::<(), DispatchError>(DispatchError::OutOfRange) && *final(self)
                            == *old(self)
                    } else {
                        &&& r is Ok
                        &&& final(self).pointer_old == Some((e.x, e.y))
                        &&& final(self).drawing == old(self).drawing
                        &&& final(self).stroke == old(self).stroke
                        &&& final(self).viewport == old(self).viewport
                        &&& final(self).scroll_state == old(self).scroll_state
                        &&& final(self).tool == old(self).tool
                    }
                },
                Action::ScrollStart => {
                    &&& r is Ok
                    &&& final(self).scroll_state == Some(ScrollState { x_old: 0, y_old: 0 })
                    &&& final(self).drawing == old(self).drawing
                    &&& final(self).stroke == old(self).stroke
                    &&& final(self).viewport == old(self).viewport
                    &&& final(self).pointer_old == old(self).pointer_old
                    &&& final(self).tool == old(self).tool
                },
                Action::ScrollEnd => {
                    &&& r is Ok
                    &&& final(self).scroll_state is None
                    &&& final(self).drawing == old(self).drawing
                    &&& final(self).stroke == old(self).stroke
                    &&& final(self).viewport == old(self).viewport
                    &&& final(self).pointer_old == old(self).pointer_old
                    &&& final(self).tool == old(self).tool
                },
                Action::ToolPen | Action::ToolEraser | Action::ToolObjEraser | Action::ToolHand => {
                    let t = match action {
                        Action::ToolPen => Tool::Pen,
                        Action::ToolEraser => Tool::Eraser,
                        Action::ToolObjEraser => Tool::ObjEraser,
                        _ => Tool::Hand,
                    };
                    &&& r is Ok
                    &&& final(self).tool == (if old(self).stroke is Some {
                        old(self).tool
                    } else {
                        t
                    })
                    &&& final(self).drawing == old(self).drawing
                    &&& final(self).stroke == old(self).stroke
                    &&& final(self).viewport == old(self).viewport
                    &&& final(self).scroll_state == old(self).scroll_state
                    &&& final(self).pointer_old == old(self).pointer_old
                },
            },
    {
        match action {
            Action::MousePress(e) => {
                if e.x < -COORD_LIMIT || e.x > COORD_LIMIT || e.y < -COORD_LIMIT || e.y
                    > COORD_LIMIT {
                    return Err(DispatchError::OutOfRange);
                }
                match self.tool {
                    Tool::Hand => {
                        self.scroll_state = Some(ScrollState { x_old: e.x, y_old: e.y });
                    },
                    Tool::Pen => {
                        self.stroke = Some(Stroke::start(e.x, e.y, Color { r: 0, g: 0, b: 255 }, 255));
                    },
                    _ => {
                        self.stroke = Some(
                            Stroke::start(e.x, e.y, Color { r: 255, g: 255, b: 255 }, 255),
                        );
                    },
                }
                Ok(())
            },
            Action::MouseMotion(e) => {
                if e.x < -COORD_LIMIT || e.x > COORD_LIMIT || e.y < -COORD_LIMIT || e.y
                    > COORD_LIMIT {
                    return Err(DispatchError::OutOfRange);
                }
                match self.tool {
                    Tool::Hand => {
                        match self.scroll_state {
                            Some(st) => {
                                let _applied = self.viewport.pan(e.x - st.x_old, e.y - st.y_old);
                                self.scroll_state = Some(ScrollState { x_old: e.x, y_old: e.y });
                                Ok(())
                            },
                            None => Err(DispatchError::NoStrokeInProgress),
                        }
                    },
                    _ => {
                        match &mut self.stroke {
                            Some(st) => {
                                st.add(e.x, e.y);
                                Ok(())
                            },
                            None => Err(DispatchError::NoStrokeInProgress),
                        }
                    },
                }
            },
            Action::MouseRelease(e) => {
                if e.x < -COORD_LIMIT || e.x > COORD_LIMIT || e.y < -COORD_LIMIT || e.y
                    > COORD_LIMIT {
                    return Err(DispatchError::OutOfRange);
                }
                match self.tool {
                    Tool::Hand => {
                        self.scroll_state = None;
                        Ok(())
                    },
                    _ => {
                        let finished = match &self.stroke {
                            Some(st) => {
                                let mut s2 = st.duplicate();
                                s2.add(e.x, e.y);
                                s2
                            },
                            None => {
                                return Err(DispatchError::NoStrokeInProgress);
                            },
                        };
                        self.stroke = None;
                        match finished.normalize(&self.viewport) {
                            Some(nd) => {
                                proof {
                                    assert(nd.points@ =~= norm_pts(
                                        old(self).viewport,
                                        finished.points@,
                                    ));
                                }
                                match self.tool {
                                    Tool::Pen => {
                                        self.drawing.insert(nd);
                                    },
                                    Tool::Eraser => {
                                        split_erase_path(&mut self.drawing, &nd, ERASE_RADIUS);
                                    },
                                    _ => {
                                        object_erase(&mut self.drawing, &nd);
                                    },
                                }
                                Ok(())
                            },
                            None => {
                                proof {
                                    assert(!pts_in_range(
                                        norm_pts(old(self).viewport, finished.points@),
                                    )) by {
                                        let bad = choose|i: int|
                                            0 <= i < finished.points@.len() && !crate::geom::pt_in_range(
                                                Pt {
                                                    x: doc_floor(
                                                        self.viewport.transform.x,
                                                        (finished.points@[i]).x as int,
                                                    ) as i64,
                                                    y: doc_floor(
                                                        self.viewport.transform.y,
                                                        finished.points@[i].y as int,
                                                    ) as i64,
                                                },
                                            );
                                        assert(norm_pts(old(self).viewport, finished.points@)[bad]
                                            == norm_pt(old(self).viewport, finished.points@[bad]));
                                    }
                                }
                                Err(DispatchError::OutOfRange)
                            },
                        }
                    },
                }
            },
            Action::Allocation(a) => {
                if a.width < 0 || a.width > COORD_LIMIT as i32 || a.height < 0 || a.height
                    > COORD_LIMIT as i32 {
                    return Err(DispatchError::OutOfRange);
                }
                self.viewport.resize(a.width, a.height);
                Ok(())
            },
            Action::Zoom(z) => {
                let (ax, ay) = match self.pointer_old {
                    Some(p) => p,
                    None => (0i64, 0i64),
                };
                let _applied = self.viewport.zoom(z.dscale_num, z.dscale_den, ax, ay);
                Ok(())
            },
            Action::Scroll(e) => {
                if e.dx < -COORD_LIMIT || e.dx > COORD_LIMIT || e.dy < -COORD_LIMIT || e.dy
                    > COORD_LIMIT {
                    return Err(DispatchError::OutOfRange);
                }
                match self.scroll_state {
                    Some(st) => {
                        let _applied = self.viewport.pan(e.dx - st.x_old, e.dy - st.y_old);
                        self.scroll_state = Some(ScrollState { x_old: e.dx, y_old: e.dy });
                    },
                    None => {
                        let _applied = self.viewport.pan(e.dx, e.dy);
                    },
                }
                Ok(())
            },
            Action::Motion(e) => {
                if e.x < -COORD_LIMIT || e.x > COORD_LIMIT || e.y < -COORD_LIMIT || e.y
                    > COORD_LIMIT {
                    return Err(DispatchError::OutOfRange);
                }
                self.pointer_old = Some((e.x, e.y));
                Ok(())
            },
            Action::ScrollStart => {
                self.scroll_state = Some(ScrollState { x_old: 0, y_old: 0 });
                Ok(())
            },
            Action::ScrollEnd => {
                self.scroll_state = None;
                Ok(())
            },
            Action::ToolPen => {
                if self.stroke.is_none() {
                    self.tool = Tool::Pen;
                }
                Ok(())
            },
            Action::ToolEraser => {
                if self.stroke.is_none() {
                    self.tool = Tool::Eraser;
                }
                Ok(())
            },
            Action::ToolObjEraser => {
                if self.stroke.is_none() {
                    self.tool = Tool::ObjEraser;
                }
                Ok(())
            },
            Action::ToolHand => {
                if self.stroke.is_none() {
                    self.tool = Tool::Hand;
                }
                Ok(())
            },
        }
    }
}


/// One drawable item of a render request: an ordered point sequence in
/// screen space with its style.
pub struct RenderItem {
    pub points: Vec<Pt>,
    pub color: Color,
    pub alpha: u8,
}

/// The abstraction of a render item list.
pub open spec fn items_data(items: Seq<RenderItem>) -> Seq<StrokeData> {
    items.map_values(|it: RenderItem| StrokeData { pts: it.points@, color: it.color, alpha: it.alpha })
}

/// A polyline converted from document to screen space, point by point.
pub open spec fn screen_pts(v: Viewport, pts: Seq<Pt>) -> Seq<Pt> {
    pts.map_values(
        |p: Pt| Pt {
            x: screen_floor(v.transform.x, p.x as int) as i64,
            y: screen_floor(v.transform.y, p.y as int) as i64,
        },
    )
}

impl AppState {
    /// Produces the outbound render request: every committed stroke
    /// whose envelope intersects the visible document region, in index
    /// order and converted to screen space, followed by the in-progress
    /// stroke, if any, so that it always draws on top.
    pub fn render_request(&self) -> (items: Vec<RenderItem>)
        requires
            app_wf(*self),
        ensures
            ({
                let vis = self.drawing@.filter(
                    |d: StrokeData| data_in_region(d, visible_region(self.viewport)),
                );
                let m = vis.len() as int;
                &&& items@.len() == m + (if self.stroke is Some {
                    1int
                } else {
                    0int
                })
                &&& forall|k: int|
                    0 <= k < m ==> (#[trigger] items@[k]).points@ == screen_pts(
                        self.viewport,
                        vis[k].pts,
                    ) && items@[k].color == vis[k].color && items@[k].alpha == vis[k].alpha
                &&& match self.stroke {
                    Some(st) => items@.last().points@ == st.points@ && items@.last().color
                        == st.color && items@.last().alpha == st.alpha,
                    None => true,
                }
            }),
    {
        let region = self.viewport.normalized();
        let strokes = self.drawing.query_range(&region);
        let ghost vis = self.drawing@.filter(
            |d: StrokeData| data_in_region(d, visible_region(self.viewport)),
        );
        proof {
            crate::erase::lemma_filter_congruence(
                self.drawing@,
                |d: StrokeData| data_in_region(d, region),
                |d: StrokeData| data_in_region(d, visible_region(self.viewport)),
            );
        }
        let mut items: Vec<RenderItem> = Vec::new();
        let n = strokes.len();
        let mut k: usize = 0;
        while k < n
            invariant
                app_wf(*self),
                n == strokes@.len(),
                0 <= k <= n,
                crate::index::datas_of(strokes@) == vis,
                forall|j: int| 0 <= j < n ==> crate::stroke::stroke_valid(#[trigger] strokes@[j]),
                items@.len() == k,
                forall|j: int|
                    0 <= j < k ==> (#[trigger] items@[j]).points@ == screen_pts(
                        self.viewport,
                        vis[j].pts,
                    ) && items@[j].color == vis[j].color && items@[j].alpha == vis[j].alpha,
            decreases n - k,
        {
            let s = &strokes[k];
            let mut pts: Vec<Pt> = Vec::new();
            let pn = s.points.len();
            let mut i: usize = 0;
            while i < pn
                invariant
                    app_wf(*self),
                    pn == s.points@.len(),
                    0 <= i <= pn,
                    crate::stroke::pts_in_range(s.points@),
                    pts@ == screen_pts(self.viewport, s.points@.subrange(0, i as int)),
                decreases pn - i,
            {
                let p = self.viewport.transform_to_viewport(s.points[i]);
                pts.push(p);
                proof {
                    assert(pts@ =~= screen_pts(self.viewport, s.points@.subrange(0, i + 1)));
                }
                i = i + 1;
            }
            proof {
                assert(s.points@.subrange(0, pn as int) =~= s.points@);
                assert(crate::index::datas_of(strokes@)[k as int] == sdata(strokes@[k as int]));
            }
            items.push(RenderItem { points: pts, color: s.color, alpha: s.alpha });
            k = k + 1;
        }
        match &self.stroke {
            Some(st) => {
                let d = st.duplicate();
                items.push(RenderItem { points: d.points, color: d.color, alpha: d.alpha });
            },
            None => {},
        }
        items
    }
}

/// The capacity-one hand-off buffer between render production and
/// consumption: a newly submitted frame overwrites any unconsumed one,
/// and a consumer finding no fresh frame receives the last delivered
/// frame again, so it never shows nothing and never blocks the
/// producer.
pub struct FrameSlot {
    pending: Option<Vec<RenderItem>>,
    delivered: Option<Vec<RenderItem>>,
}

impl FrameSlot {
    /// The frame submitted and not yet consumed, if any.
    pub closed spec fn pending_view(&self) -> Option<Seq<StrokeData>> {
        match self.pending {
            Some(f) => Some(items_data(f@)),
            None => None,
        }
    }

    /// The frame most recently handed to the consumer, if any.
    pub closed spec fn delivered_view(&self) -> Option<Seq<StrokeData>> {
        match self.delivered {
            Some(f) => Some(items_data(f@)),
            None => None,
        }
    }

    /// An empty slot: nothing pending, nothing delivered yet.
    pub fn new() -> (s: FrameSlot)
        ensures
            s.pending_view() is None,
            s.delivered_view() is None,
    {
        FrameSlot { pending: None, delivered: None }
    }

    /// Submits a frame: the latest wins, replacing any unconsumed one.
    pub fn submit(&mut self, frame: Vec<RenderItem>)
        ensures
            final(self).pending_view() == Some(items_data(frame@)),
            final(self).delivered_view() == old(self).delivered_view(),
    {
        self.pending = Some(frame);
    }

    /// Takes the most recent completed frame: the pending one if fresh,
    /// else the last delivered one again; `None` only before any frame
    /// was ever submitted.
    pub fn acquire(&mut self) -> (r: Option<Vec<RenderItem>>)
        ensures
            match old(self).pending_view() {
                Some(f) => {
                    &&& match r {
                        Some(rf) => items_data(rf@) == f,
                        None => false,
                    }
                    &&& final(self).pending_view() is None
                    &&& final(self).delivered_view() == Some(f)
                },
                None => {
                    &&& *final(self) == *old(self)
                    &&& match old(self).delivered_view() {
                        Some(f) => match r {
                            Some(rf) => items_data(rf@) == f,
                            None => false,
                        },
                        None => r is None,
                    }
                },
            },
    {
        let mut taken: Option<Vec<RenderItem>> = None;
        core::mem::swap(&mut taken, &mut self.pending);
        match taken {
            Some(f) => {
                let copy = dup_frame(&f);
                self.delivered = Some(f);
                Some(copy)
            },
            None => {
                match &self.delivered {
                    Some(f) => Some(dup_frame(f)),
                    None => None,
                }
            },
        }
    }
}

/// An element-for-element copy of a frame.
fn dup_frame(frame: &Vec<RenderItem>) -> (r: Vec<RenderItem>)
    ensures
        items_data(r@) == items_data(frame@),
{
    let mut out: Vec<RenderItem> = Vec::new();
    let n = frame.len();
    let mut k: usize = 0;
    while k < n
        invariant
            n == frame@.len(),
            0 <= k <= n,
            out@.len() == k,
            forall|j: int|
                0 <= j < k ==> (#[trigger] out@[j]).points@ == frame@[j].points@ && out@[j].color
                    == frame@[j].color && out@[j].alpha == frame@[j].alpha,
        decreases n - k,
    {
        let it = &frame[k];
        let mut pts: Vec<Pt> = Vec::new();
        let pn = it.points.len();
        let mut i: usize = 0;
        while i < pn
            invariant
                pn == it.points@.len(),
                0 <= i <= pn,
                pts@ == it.points@.subrange(0, i as int),
            decreases pn - i,
        {
            pts.push(it.points[i]);
            proof {
                assert(pts@ =~= it.points@.subrange(0, i + 1));
            }
            i = i + 1;
        }
        proof {
            assert(pts@ =~= it.points@);
        }
        out.push(RenderItem { points: pts, color: it.color, alpha: it.alpha });
        k = k + 1;
    }
    proof {
        assert(items_data(out@) =~= items_data(frame@));
    }
    out
}

} // verus!
