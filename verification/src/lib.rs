//! A freehand-drawing document core: an infinitely pannable and zoomable
//! canvas of polyline strokes, held in a spatial index, with whole-object
//! and split erasing resolved by exact integer geometry.
//!
//! Screen and document coordinates are integers; the viewport transform is
//! an exact rational per axis, so coordinate conversions, envelope
//! queries and erase decisions are reproducible.

pub mod controller;
pub mod erase;
pub mod geom;
pub mod index;
pub mod split;
pub mod stroke;
pub mod sweep;
pub mod viewport;

pub use controller::{
    Action, AllocationAction, AppState, DispatchError, FrameSlot, MotionEvent, MouseMotionAction,
    MousePressAction, MouseReleaseAction, RenderItem, ScrollEvent, ScrollState, Tool, ZoomEvent,
    ERASE_RADIUS,
};
pub use geom::{Env, Pt, COORD_LIMIT};
pub use index::SpatialDocument;
pub use stroke::{Color, Stroke};
pub use viewport::Viewport;
