//! Decision core for shifting the focused window of a tiling window manager
//! one step in a compass direction, crossing frame and split boundaries.
//!
//! The library is pure computation: it models on-screen rectangles, parses
//! the window manager's textual layout dump into a tree, resolves the stack
//! of ancestor layout orientations above the focused frame, and decides
//! whether the move needs a new split, stays within the frame, or crosses
//! to another monitor. All transport to the window manager lives outside.

pub mod direction;
pub mod error;
pub mod geometry;
pub mod parser;
pub mod shift;
