//! Compass directions for shifting the focused window, and the split
//! directions understood by the window manager's split command.

use vstd::prelude::*;

verus! {

/// Direction in which the focused window should be shifted.
#[derive(Clone, Copy, Debug, PartialEq, Eq, Structural)]
pub enum ShiftDirection {
    Right,
    Left,
    Up,
    Down,
}

/// Direction of a newly created split, as the window manager names it.
#[derive(Clone, Copy, Debug, PartialEq, Eq, Structural)]
pub enum SplitDirection {
    Right,
    Left,
    Top,
    Bottom,
}

/// The split direction that realises a shift in the given direction.
pub open spec fn spec_split_direction(dir: ShiftDirection) -> SplitDirection {
    match dir {
        ShiftDirection::Right => SplitDirection::Right,
        ShiftDirection::Left => SplitDirection::Left,
        ShiftDirection::Up => SplitDirection::Top,
        ShiftDirection::Down => SplitDirection::Bottom,
    }
}

impl From<ShiftDirection> for SplitDirection {
    fn from(dir: ShiftDirection) -> (r: Self) {
        match dir {
            ShiftDirection::Right => Self::Right,
            ShiftDirection::Left => Self::Left,
            ShiftDirection::Up => Self::Top,
            ShiftDirection::Down => Self::Bottom,
        }
    }
}

impl vstd::std_specs::convert::FromSpecImpl<ShiftDirection> for SplitDirection {
    open spec fn obeys_from_spec() -> bool {
        true
    }

    open spec fn from_spec(dir: ShiftDirection) -> Self {
        spec_split_direction(dir)
    }
}

} // verus!
