use hlwm_shift::direction::{ShiftDirection, SplitDirection};
use hlwm_shift::error::ShiftError;
use hlwm_shift::geometry::Geometry;
use hlwm_shift::parser::LayoutType;
use hlwm_shift::shift::{
    can_focus_within_frame, find_split, index_array_to_string, shift, ShiftPlan, SplitAction,
};

#[test]
fn root_override_splits_whole_path() {
    let stack = [LayoutType::Horizontal, LayoutType::Vertical];
    for dir in [
        ShiftDirection::Right,
        ShiftDirection::Left,
        ShiftDirection::Up,
        ShiftDirection::Down,
    ] {
        assert_eq!(
            find_split(2, dir, &[0, 1], &stack),
            SplitAction::Split(vec![0, 1])
        );
        assert_eq!(find_split(5, dir, &[], &[]), SplitAction::Split(vec![]));
    }
}

#[test]
fn wrong_axis_ancestor_asks_for_split() {
    // deepest ancestor runs across the travel axis: split right above it
    let stack = [LayoutType::Horizontal, LayoutType::Vertical];
    assert_eq!(
        find_split(1, ShiftDirection::Right, &[0, 1], &stack),
        SplitAction::Split(vec![0])
    );
}

#[test]
fn exhausted_walk_moves_across_monitor() {
    // both ancestors run along the axis but the frame sits on the wrong side
    let stack = [LayoutType::Horizontal, LayoutType::Horizontal];
    assert_eq!(
        find_split(1, ShiftDirection::Left, &[0, 0], &stack),
        SplitAction::MoveableGlobal
    );
}

#[test]
fn single_level_wrong_slot_moves_across_monitor() {
    let stack = [LayoutType::Horizontal];
    assert_eq!(
        find_split(1, ShiftDirection::Right, &[1], &stack),
        SplitAction::MoveableGlobal
    );
}

#[test]
fn right_axis_right_slot_moves_locally() {
    let stack = [LayoutType::Vertical, LayoutType::Horizontal];
    assert_eq!(
        find_split(1, ShiftDirection::Right, &[1, 0], &stack),
        SplitAction::MoveableLocal
    );
    let stack = [LayoutType::Vertical];
    assert_eq!(
        find_split(1, ShiftDirection::Down, &[0], &stack),
        SplitAction::MoveableLocal
    );
}

#[test]
fn max_algorithm_walks_the_stack_by_index() {
    let f = Geometry {
        width: 100,
        height: 100,
        x: 0,
        y: 0,
    };
    let c = f;
    for index in 0..3usize {
        let right = can_focus_within_frame(3, index, ShiftDirection::Right, LayoutType::Max, &f, &c);
        let left = can_focus_within_frame(3, index, ShiftDirection::Left, LayoutType::Max, &f, &c);
        assert_eq!(right, index < 2);
        assert_eq!(left, index > 0);
        assert!(!can_focus_within_frame(
            3,
            index,
            ShiftDirection::Up,
            LayoutType::Max,
            &f,
            &c
        ));
        assert!(!can_focus_within_frame(
            3,
            index,
            ShiftDirection::Down,
            LayoutType::Max,
            &f,
            &c
        ));
    }
}

#[test]
fn other_algorithms_use_the_geometry() {
    let frame = Geometry {
        width: 100,
        height: 100,
        x: 0,
        y: 0,
    };
    let client = Geometry {
        width: 50,
        height: 100,
        x: 0,
        y: 0,
    };
    assert!(can_focus_within_frame(
        2,
        0,
        ShiftDirection::Right,
        LayoutType::Vertical,
        &frame,
        &client
    ));
    assert!(!can_focus_within_frame(
        2,
        0,
        ShiftDirection::Left,
        LayoutType::Vertical,
        &frame,
        &client
    ));
}

#[test]
fn index_paths_become_digit_strings() {
    assert_eq!(index_array_to_string(&[]), "");
    assert_eq!(index_array_to_string(&[0, 1, 0]), "010");
    assert_eq!(index_array_to_string(&[1]), "1");
    assert_eq!(index_array_to_string(&[9, 10, 123]), "910123");
}

const DUMP: &[u8] =
    b"(split horizontal:0.5:0 (clients vertical:0 0xa00009) (clients vertical:0))";

fn geo(s: &[u8]) -> Geometry {
    Geometry::from_str(s).unwrap()
}

#[test]
fn shift_of_empty_frame_fails() {
    let r = shift(
        ShiftDirection::Right,
        false,
        0,
        0,
        LayoutType::Vertical,
        &geo(b"100x100+0+0"),
        &geo(b"50x50+0+0"),
        &[0],
        DUMP,
    );
    assert_eq!(r, Err(ShiftError::EmptyFrame));
}

#[test]
fn shift_within_frame_when_room_remains() {
    // client is flush only against the left edge: a right shift stays local
    let r = shift(
        ShiftDirection::Right,
        false,
        2,
        0,
        LayoutType::Vertical,
        &geo(b"100x100+0+0"),
        &geo(b"50x100+0+0"),
        &[0],
        DUMP,
    );
    assert_eq!(r, Ok(ShiftPlan::MoveWithin));
}

#[test]
fn shift_across_frames_follows_find_split() {
    // lone client in the left frame of a horizontal split, moving left:
    // the walk exhausts, so the move crosses monitors and removes the
    // emptied frame
    let r = shift(
        ShiftDirection::Left,
        false,
        1,
        0,
        LayoutType::Vertical,
        &geo(b"50x100+0+0"),
        &geo(b"50x100+0+0"),
        &[0],
        DUMP,
    );
    assert_eq!(
        r,
        Ok(ShiftPlan::Apply {
            split_at: None,
            needs_monitor: true,
            remove_frame: true,
        })
    );
}

#[test]
fn shift_that_needs_a_split_names_the_prefix() {
    // moving up from the left frame: the horizontal root runs across the
    // travel axis, so a split is created at the empty prefix
    let r = shift(
        ShiftDirection::Up,
        false,
        1,
        0,
        LayoutType::Vertical,
        &geo(b"50x100+0+0"),
        &geo(b"50x100+0+0"),
        &[0],
        DUMP,
    );
    assert_eq!(
        r,
        Ok(ShiftPlan::Apply {
            split_at: Some(vec![]),
            needs_monitor: false,
            remove_frame: true,
        })
    );
}

#[test]
fn shift_on_malformed_dump_fails() {
    let r = shift(
        ShiftDirection::Right,
        true,
        2,
        0,
        LayoutType::Vertical,
        &geo(b"100x100+0+0"),
        &geo(b"50x50+0+0"),
        &[0],
        b"(broken",
    );
    assert_eq!(r, Err(ShiftError::MalformedLayoutDump));
}

#[test]
fn frame_only_shift_skips_the_local_move() {
    // with room to spare inside the frame, a frame-level shift still
    // consults the tree; two clients trigger the root override
    let r = shift(
        ShiftDirection::Right,
        true,
        2,
        0,
        LayoutType::Vertical,
        &geo(b"100x100+0+0"),
        &geo(b"50x100+0+0"),
        &[0],
        DUMP,
    );
    assert_eq!(
        r,
        Ok(ShiftPlan::Apply {
            split_at: Some(vec![0]),
            needs_monitor: false,
            remove_frame: false,
        })
    );
}

#[test]
fn split_directions_follow_shift_directions() {
    assert_eq!(
        SplitDirection::from(ShiftDirection::Right),
        SplitDirection::Right
    );
    assert_eq!(
        SplitDirection::from(ShiftDirection::Left),
        SplitDirection::Left
    );
    assert_eq!(SplitDirection::from(ShiftDirection::Up), SplitDirection::Top);
    assert_eq!(
        SplitDirection::from(ShiftDirection::Down),
        SplitDirection::Bottom
    );
}
