use hlwm_shift::direction::ShiftDirection;
use hlwm_shift::error::ShiftError;
use hlwm_shift::geometry::Geometry;

#[test]
fn parse_plain_rectangle() {
    let g = Geometry::from_str(b"800x600+0+0").unwrap();
    assert_eq!(
        g,
        Geometry {
            width: 800,
            height: 600,
            x: 0,
            y: 0
        }
    );
}

#[test]
fn parse_rectangle_with_offsets() {
    let g = Geometry::from_str(b"1920x1080+1920+24").unwrap();
    assert_eq!(g.width, 1920);
    assert_eq!(g.height, 1080);
    assert_eq!(g.x, 1920);
    assert_eq!(g.y, 24);
    assert_eq!(g.left_edge(), 1920);
    assert_eq!(g.top_edge(), 24);
    assert_eq!(g.right_edge(), 3840);
    assert_eq!(g.bottom_edge(), 1104);
}

#[test]
fn parse_too_few_fields_fails() {
    assert_eq!(
        Geometry::from_str(b"800x600"),
        Err(ShiftError::MalformedGeometry)
    );
}

#[test]
fn parse_non_numeric_field_fails() {
    assert_eq!(
        Geometry::from_str(b"800xabc+0+0"),
        Err(ShiftError::MalformedGeometry)
    );
    assert_eq!(
        Geometry::from_str(b"800x600+0+-1"),
        Err(ShiftError::MalformedGeometry)
    );
}

#[test]
fn parse_empty_and_overflow_fail() {
    assert_eq!(Geometry::from_str(b""), Err(ShiftError::MalformedGeometry));
    assert_eq!(
        Geometry::from_str(b"1x2++3+4"),
        Err(ShiftError::MalformedGeometry)
    );
    assert_eq!(
        Geometry::from_str(b"99999999999999999999999999x1+1+1"),
        Err(ShiftError::MalformedGeometry)
    );
}

#[test]
fn parse_extra_fields_keeps_first_four() {
    let g = Geometry::from_str(b"10x20+30+40+50").unwrap();
    assert_eq!(
        g,
        Geometry {
            width: 10,
            height: 20,
            x: 30,
            y: 40
        }
    );
}

#[test]
fn child_can_move_matches_edge_inequalities() {
    let parent = Geometry::from_str(b"100x100+0+0").unwrap();
    let flush = Geometry::from_str(b"50x50+50+50").unwrap();
    let inner = Geometry::from_str(b"50x50+10+10").unwrap();

    // flush child touches the right and bottom edges, not left or top
    assert!(!parent.child_can_move(&flush, ShiftDirection::Right));
    assert!(!parent.child_can_move(&flush, ShiftDirection::Down));
    assert!(parent.child_can_move(&flush, ShiftDirection::Left));
    assert!(parent.child_can_move(&flush, ShiftDirection::Up));

    // inner child has room on the right and below, none above or left of it
    assert!(parent.child_can_move(&inner, ShiftDirection::Right));
    assert!(parent.child_can_move(&inner, ShiftDirection::Down));
    assert!(parent.child_can_move(&inner, ShiftDirection::Left));
    assert!(parent.child_can_move(&inner, ShiftDirection::Up));

    let top_left = Geometry::from_str(b"50x50+0+0").unwrap();
    assert!(!parent.child_can_move(&top_left, ShiftDirection::Left));
    assert!(!parent.child_can_move(&top_left, ShiftDirection::Up));
}
