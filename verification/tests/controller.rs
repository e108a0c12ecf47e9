//! Controller behavior: the dispatch state machine end to end, the
//! render request, and the latest-wins frame slot.

use xournalr::{
    Action, AllocationAction, AppState, DispatchError, Env, FrameSlot, MouseMotionAction,
    MousePressAction, MouseReleaseAction, Pt, Tool,
};

fn all_strokes(state: &AppState) -> Vec<Vec<Pt>> {
    let all = Env { min_x: -100000, min_y: -100000, max_x: 100000, max_y: 100000 };
    state.drawing.query_range(&all).iter().map(|s| s.points.clone()).collect()
}

fn draw(state: &mut AppState, points: &[(i64, i64)]) {
    let first = points[0];
    state
        .dispatch(Action::MousePress(MousePressAction { x: first.0, y: first.1 }))
        .unwrap();
    for p in &points[1..points.len() - 1] {
        state
            .dispatch(Action::MouseMotion(MouseMotionAction { x: p.0, y: p.1 }))
            .unwrap();
    }
    let last = points[points.len() - 1];
    state
        .dispatch(Action::MouseRelease(MouseReleaseAction { x: last.0, y: last.1 }))
        .unwrap();
}

#[test]
fn pen_commits_stroke() {
    let mut state = AppState::new();
    draw(&mut state, &[(0, 0), (10, 0), (10, 10)]);
    // Identity transform: document coordinates equal screen ones.
    assert_eq!(all_strokes(&state), vec![vec![
        Pt { x: 0, y: 0 },
        Pt { x: 10, y: 0 },
        Pt { x: 10, y: 10 },
    ]]);
    assert!(state.stroke.is_none());
}

#[test]
fn motion_without_press_fails() {
    let mut state = AppState::new();
    assert_eq!(
        state.dispatch(Action::MouseMotion(MouseMotionAction { x: 1, y: 1 })),
        Err(DispatchError::NoStrokeInProgress)
    );
    assert_eq!(
        state.dispatch(Action::MouseRelease(MouseReleaseAction { x: 1, y: 1 })),
        Err(DispatchError::NoStrokeInProgress)
    );
}

#[test]
fn out_of_range_coordinate_fails() {
    let mut state = AppState::new();
    let big = xournalr::COORD_LIMIT + 1;
    assert_eq!(
        state.dispatch(Action::MousePress(MousePressAction { x: big, y: 0 })),
        Err(DispatchError::OutOfRange)
    );
    assert!(state.stroke.is_none());
}

#[test]
fn oversized_allocation_fails() {
    let mut state = AppState::new();
    assert_eq!(
        state.dispatch(Action::Allocation(AllocationAction { width: -1, height: 10 })),
        Err(DispatchError::OutOfRange)
    );
    assert!(state
        .dispatch(Action::Allocation(AllocationAction { width: 640, height: 480 }))
        .is_ok());
    assert_eq!(state.viewport.width, 640);
    assert_eq!(state.viewport.height, 480);
}

#[test]
fn tool_switch_mid_stroke_is_ignored() {
    let mut state = AppState::new();
    state
        .dispatch(Action::MousePress(MousePressAction { x: 0, y: 0 }))
        .unwrap();
    state.dispatch(Action::ToolEraser).unwrap();
    assert_eq!(state.tool, Tool::Pen);
    state
        .dispatch(Action::MouseRelease(MouseReleaseAction { x: 5, y: 5 }))
        .unwrap();
    state.dispatch(Action::ToolEraser).unwrap();
    assert_eq!(state.tool, Tool::Eraser);
}

#[test]
fn object_eraser_end_to_end() {
    let mut state = AppState::new();
    draw(&mut state, &[(0, 0), (10, 0), (10, 10)]);
    draw(&mut state, &[(100, 100), (110, 100)]);
    state.dispatch(Action::ToolObjEraser).unwrap();
    draw(&mut state, &[(5, -5), (5, 15)]);
    assert_eq!(all_strokes(&state), vec![vec![Pt { x: 100, y: 100 }, Pt { x: 110, y: 100 }]]);
}

#[test]
fn eraser_end_to_end() {
    let mut state = AppState::new();
    draw(&mut state, &[(0, 0), (40, 0), (80, 0), (120, 0)]);
    state.dispatch(Action::ToolEraser).unwrap();
    draw(&mut state, &[(60, -10), (60, 10)]);
    // The middle segment crossed the eraser band and is gone; the
    // eraser stroke itself was never inserted.
    assert_eq!(all_strokes(&state), vec![
        vec![Pt { x: 0, y: 0 }, Pt { x: 40, y: 0 }],
        vec![Pt { x: 80, y: 0 }, Pt { x: 120, y: 0 }],
    ]);
}

#[test]
fn eraser_click_without_drag() {
    // A click with no drag is a zero-length eraser path: still tested
    // against the radius.
    let mut state = AppState::new();
    draw(&mut state, &[(0, 0), (10, 0)]);
    state.dispatch(Action::ToolEraser).unwrap();
    draw(&mut state, &[(5, 1), (5, 1)]);
    assert!(all_strokes(&state).is_empty());
}

#[test]
fn render_request_lists_visible_then_in_progress() {
    let mut state = AppState::new();
    state
        .dispatch(Action::Allocation(AllocationAction { width: 200, height: 200 }))
        .unwrap();
    draw(&mut state, &[(0, 0), (10, 0)]);
    // A stroke far outside the 200x200 view.
    draw(&mut state, &[(5000, 5000), (5010, 5000)]);
    state
        .dispatch(Action::MousePress(MousePressAction { x: 50, y: 50 }))
        .unwrap();
    let items = state.render_request();
    assert_eq!(items.len(), 2);
    assert_eq!(items[0].points, vec![Pt { x: 0, y: 0 }, Pt { x: 10, y: 0 }]);
    // The in-progress stroke comes last, on top, in screen space.
    assert_eq!(items[1].points, vec![Pt { x: 50, y: 50 }]);
    state
        .dispatch(Action::MouseRelease(MouseReleaseAction { x: 60, y: 60 }))
        .unwrap();
}

#[test]
fn frame_slot_latest_wins() {
    let mut state = AppState::new();
    state
        .dispatch(Action::Allocation(AllocationAction { width: 100, height: 100 }))
        .unwrap();
    draw(&mut state, &[(0, 0), (10, 0)]);
    let frame1 = state.render_request();
    draw(&mut state, &[(20, 0), (30, 0)]);
    let frame2 = state.render_request();

    let mut slot = FrameSlot::new();
    assert!(slot.acquire().is_none());
    slot.submit(frame1);
    slot.submit(frame2);
    // The newer frame overwrote the unconsumed older one.
    let got = slot.acquire().unwrap();
    assert_eq!(got.len(), 2);
    // With nothing fresh, the consumer gets the last delivered frame
    // again rather than nothing.
    let again = slot.acquire().unwrap();
    assert_eq!(again.len(), 2);
}

#[test]
fn hand_tool_pans_with_drag() {
    let mut a = AppState::new();
    a.dispatch(Action::ToolHand).unwrap();
    assert_eq!(a.tool, Tool::Hand);
    a.dispatch(Action::MousePress(MousePressAction { x: 10, y: 10 })).unwrap();
    a.dispatch(Action::MouseMotion(MouseMotionAction { x: 13, y: 10 })).unwrap();
    a.dispatch(Action::MouseMotion(MouseMotionAction { x: 15, y: 11 })).unwrap();
    a.dispatch(Action::MouseRelease(MouseReleaseAction { x: 15, y: 11 })).unwrap();
    // The drag panned by its total delta (5, 1).
    let mut b = AppState::new();
    b.dispatch(Action::Scroll(xournalr::ScrollEvent { dx: 5, dy: 1 })).unwrap();
    assert_eq!(a.viewport.transform, b.viewport.transform);
    // Dragging the hand without a press is a dispatch error.
    let mut c = AppState::new();
    c.dispatch(Action::ToolHand).unwrap();
    assert_eq!(
        c.dispatch(Action::MouseMotion(MouseMotionAction { x: 1, y: 1 })),
        Err(DispatchError::NoStrokeInProgress)
    );
}
