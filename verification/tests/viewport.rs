//! Viewport transform behavior: round trips, zoom about a point, pan
//! accumulation, and rejection of degenerate updates.

use xournalr::{Action, AppState, MotionEvent, Pt, ScrollEvent, Viewport, ZoomEvent};

#[test]
fn identity_round_trip() {
    let v = Viewport::new();
    let p = Pt { x: 123, y: -456 };
    let s = v.transform_to_viewport(p);
    assert_eq!(s, p);
    assert_eq!(v.normalize_from_viewport(s), p);
}

#[test]
fn zoomed_round_trip() {
    let mut v = Viewport::new();
    // Scale by 3/2 about the origin.
    assert!(v.zoom(1, 2, 0, 0));
    let p = Pt { x: 10, y: -8 };
    let s = v.transform_to_viewport(p);
    assert_eq!(s, Pt { x: 15, y: -12 });
    assert_eq!(v.normalize_from_viewport(s), p);
    let q = Pt { x: 7, y: 3 };
    // 7 * 3/2 floors to 10; the inverse floors back to within one
    // document unit of the original at this scale.
    let sq = v.transform_to_viewport(q);
    assert_eq!(sq, Pt { x: 10, y: 4 });
    let back = v.normalize_from_viewport(sq);
    assert!((back.x - q.x).abs() <= 1 && (back.y - q.y).abs() <= 1);
}

#[test]
fn zoom_about_point_keeps_anchor() {
    let mut v = Viewport::new();
    assert!(v.pan(-40, -20));
    let anchor = Pt { x: 100, y: 60 };
    let before = v.normalize_from_viewport(anchor);
    // Zoom in by a factor of 2 about the anchor.
    assert!(v.zoom(1, 1, anchor.x, anchor.y));
    let after = v.normalize_from_viewport(anchor);
    assert_eq!(before, after);
}

#[test]
fn zoom_rejects_nonpositive_scale() {
    let mut v = Viewport::new();
    let before = v;
    // Factor 1 - 3/2 would be negative: the update is a no-op.
    assert!(!v.zoom(-3, 2, 0, 0));
    assert_eq!(v, before);
    // Factor exactly zero is rejected too.
    assert!(!v.zoom(-1, 1, 0, 0));
    assert_eq!(v, before);
}

#[test]
fn pan_accumulation() {
    // Three sequential pan deltas (1,0), (2,0), (-1,0) equal one (2,0).
    let mut a = AppState::new();
    assert!(a.dispatch(Action::Scroll(ScrollEvent { dx: 1, dy: 0 })).is_ok());
    assert!(a.dispatch(Action::Scroll(ScrollEvent { dx: 2, dy: 0 })).is_ok());
    assert!(a.dispatch(Action::Scroll(ScrollEvent { dx: -1, dy: 0 })).is_ok());
    let mut b = AppState::new();
    assert!(b.dispatch(Action::Scroll(ScrollEvent { dx: 2, dy: 0 })).is_ok());
    assert_eq!(a.viewport, b.viewport);
}

#[test]
fn scroll_gesture_is_incremental() {
    // Within a gesture the events carry cumulative offsets; the
    // controller must subtract the previous one, not reapply it.
    let mut a = AppState::new();
    assert!(a.dispatch(Action::ScrollStart).is_ok());
    assert!(a.dispatch(Action::Scroll(ScrollEvent { dx: 1, dy: 0 })).is_ok());
    assert!(a.dispatch(Action::Scroll(ScrollEvent { dx: 3, dy: 0 })).is_ok());
    assert!(a.dispatch(Action::Scroll(ScrollEvent { dx: 2, dy: 0 })).is_ok());
    assert!(a.dispatch(Action::ScrollEnd).is_ok());
    let mut b = AppState::new();
    assert!(b.dispatch(Action::Scroll(ScrollEvent { dx: 2, dy: 0 })).is_ok());
    assert_eq!(a.viewport, b.viewport);
}

#[test]
fn zoom_uses_last_pointer_position() {
    let mut a = AppState::new();
    assert!(a.dispatch(Action::Scroll(ScrollEvent { dx: -50, dy: -30 })).is_ok());
    assert!(a.dispatch(Action::Motion(MotionEvent { x: 200, y: 100 })).is_ok());
    let before = a.viewport.normalize_from_viewport(Pt { x: 200, y: 100 });
    assert!(a.dispatch(Action::Zoom(ZoomEvent { dscale_num: 1, dscale_den: 1 })).is_ok());
    let after = a.viewport.normalize_from_viewport(Pt { x: 200, y: 100 });
    assert_eq!(before, after);
}

#[test]
fn visible_region_covers_screen() {
    let mut v = Viewport::new();
    v.resize(640, 480);
    assert!(v.pan(10, 20));
    let e = v.normalized();
    let lo = v.normalize_from_viewport(Pt { x: 0, y: 0 });
    let hi = v.normalize_from_viewport(Pt { x: 640, y: 480 });
    assert_eq!(e.min_x, lo.x.min(hi.x));
    assert_eq!(e.max_x, lo.x.max(hi.x));
    assert_eq!(e.min_y, lo.y.min(hi.y));
    assert_eq!(e.max_y, lo.y.max(hi.y));
}
