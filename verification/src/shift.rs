//! The decision engine: whether a shift stays inside the focused frame,
//! needs a new split at some ancestor, or must cross to another monitor.

use vstd::prelude::*;

use crate::direction::ShiftDirection;
use crate::error::ShiftError;
use crate::geometry::Geometry;
use crate::parser::{spec_layout_stack, get_layout_stack, LayoutType};

verus! {

/// What `find_split` decides: create a split at the given path prefix,
/// move within the ancestor splits that already run the right way, or
/// leave the monitor.
#[derive(Debug, PartialEq)]
pub enum SplitAction {
    Split(Vec<u8>),
    MoveableLocal,
    MoveableGlobal,
}

/// The mathematical shape of a `SplitAction`.
pub enum SplitChoice {
    Split(Seq<u8>),
    MoveableLocal,
    MoveableGlobal,
}

impl View for SplitAction {
    type V = SplitChoice;

    open spec fn view(&self) -> SplitChoice {
        match self {
            SplitAction::Split(p) => SplitChoice::Split(p@),
            SplitAction::MoveableLocal => SplitChoice::MoveableLocal,
            SplitAction::MoveableGlobal => SplitChoice::MoveableGlobal,
        }
    }
}

/// The child slot that can absorb a move in `dir` without a new split:
/// the first (`0`) for Right and Down, the second (`1`) for Left and Up.
pub open spec fn spec_movable_index(dir: ShiftDirection) -> u8 {
    match dir {
        ShiftDirection::Right | ShiftDirection::Down => 0,
        ShiftDirection::Left | ShiftDirection::Up => 1,
    }
}

/// The split orientation that runs along the travel axis of `dir`.
pub open spec fn spec_target_layout(dir: ShiftDirection) -> LayoutType {
    match dir {
        ShiftDirection::Right | ShiftDirection::Left => LayoutType::Horizontal,
        ShiftDirection::Up | ShiftDirection::Down => LayoutType::Vertical,
    }
}

/// The walk of `find_split` from ancestor `e` up towards the root:
/// an ancestor split along the travel axis whose occupied slot can
/// absorb the move ends it with `MoveableLocal`; an ancestor split
/// across the travel axis asks for a new split there; a walk that
/// exhausts every ancestor must leave the monitor.
pub open spec fn spec_find_split_walk(
    dir: ShiftDirection,
    index: Seq<u8>,
    stack: Seq<LayoutType>,
    e: int,
) -> SplitChoice
    decreases e + 1,
{
    if e < 0 {
        SplitChoice::MoveableGlobal
    } else if index[e] == spec_movable_index(dir) && stack[e] == spec_target_layout(dir) {
        SplitChoice::MoveableLocal
    } else if stack[e] != spec_target_layout(dir) {
        SplitChoice::Split(index.take(e))
    } else {
        spec_find_split_walk(dir, index, stack, e - 1)
    }
}

/// What `find_split` returns: the root override where the focused frame
/// itself holds several clients, else the deepest-first walk over the
/// ancestor splits.
pub open spec fn spec_find_split(
    clients: int,
    dir: ShiftDirection,
    index: Seq<u8>,
    stack: Seq<LayoutType>,
) -> SplitChoice {
    if clients > 1 {
        SplitChoice::Split(index)
    } else {
        let n: int = if index.len() <= stack.len() {
            index.len() as int
        } else {
            stack.len() as int
        };
        spec_find_split_walk(dir, index, stack, n - 1)
    }
}

/// Root override: with more than one client in the focused frame the
/// whole path is split, whatever the direction, path and layout stack.
pub proof fn lemma_find_split_root_override(
    clients: int,
    dir: ShiftDirection,
    index: Seq<u8>,
    stack: Seq<LayoutType>,
)
    requires
        clients > 1,
    ensures
        spec_find_split(clients, dir, index, stack) == SplitChoice::Split(index),
{
}

/// Decides how a shift in `dir` leaves the focused frame: `clients` is
/// the frame's client count, `index` the frame index path of the focused
/// frame, and `layout_stack` the orientations of its ancestors, root
/// first. The path and the stack are read pairwise from the deepest
/// ancestor to the root.
pub fn find_split(
    clients: usize,
    dir: ShiftDirection,
    index: &[u8],
    layout_stack: &[LayoutType],
) -> (r: SplitAction)
    ensures
        r@ == spec_find_split(clients as int, dir, index@, layout_stack@),
{
    let movable_index: u8 = match dir {
        ShiftDirection::Right | ShiftDirection::Down => 0,
        ShiftDirection::Left | ShiftDirection::Up => 1,
    };
    let target_layout_type = match dir {
        ShiftDirection::Right | ShiftDirection::Left => LayoutType::Horizontal,
        ShiftDirection::Up | ShiftDirection::Down => LayoutType::Vertical,
    };
    if clients > 1 {
        let mut p: Vec<u8> = Vec::new();
        let mut t: usize = 0;
        while t < index.len()
            invariant
                t <= index@.len(),
                p@ == index@.take(t as int),
            decreases index@.len() - t,
        {
            p.push(index[t]);
            proof {
                assert(p@ =~= index@.take(t + 1));
            }
            t = t + 1;
        }
        proof {
            assert(index@.take(index@.len() as int) =~= index@);
        }
        return SplitAction::Split(p);
    }
    let n: usize = if index.len() <= layout_stack.len() {
        index.len()
    } else {
        layout_stack.len()
    };
    let mut e: usize = n;
    while e > 0
        invariant
            e <= n,
            clients <= 1,
            n as int == (if index@.len() <= layout_stack@.len() {
                index@.len() as int
            } else {
                layout_stack@.len() as int
            }),
            movable_index == spec_movable_index(dir),
            target_layout_type == spec_target_layout(dir),
            spec_find_split_walk(dir, index@, layout_stack@, n - 1) == spec_find_split_walk(
                dir,
                index@,
                layout_stack@,
                e - 1,
            ),
        decreases e,
    {
        let i = e - 1;
        if index[i] == movable_index && layout_stack[i] == target_layout_type {
            return SplitAction::MoveableLocal;
        }
        if layout_stack[i] != target_layout_type {
            let mut p: Vec<u8> = Vec::new();
            let mut t: usize = 0;
            while t < i
                invariant
                    t <= i <= index@.len(),
                    p@ == index@.take(t as int),
                decreases i - t,
            {
                p.push(index[t]);
                proof {
                    assert(p@ =~= index@.take(t + 1));
                }
                t = t + 1;
            }
            return SplitAction::Split(p);
        }
        e = i;
    }
    SplitAction::MoveableGlobal
}

/// Whether a shift in `dir` can stay inside the focused frame. Under the
/// `Max` algorithm the stacked clients are walked by index: Right moves
/// down the stack, Left up, and there is no vertical navigation. Under
/// every other algorithm the move stays inside iff the client rectangle
/// is not yet flush against the frame's edge in `dir`.
pub open spec fn spec_can_focus_within_frame(
    clients: int,
    index: int,
    dir: ShiftDirection,
    algorithm: LayoutType,
    frame: Geometry,
    client: Geometry,
) -> bool {
    if algorithm == LayoutType::Max {
        match dir {
            ShiftDirection::Right => index < clients - 1,
            ShiftDirection::Left => index > 0,
            ShiftDirection::Up | ShiftDirection::Down => false,
        }
    } else {
        frame.spec_child_can_move(client, dir)
    }
}

/// Tests whether the focused client, at `index` of `clients`, can take
/// one step in `dir` without leaving its frame.
pub fn can_focus_within_frame(
    clients: usize,
    index: usize,
    dir: ShiftDirection,
    algorithm: LayoutType,
    frame: &Geometry,
    client: &Geometry,
) -> (r: bool)
    requires
        algorithm == LayoutType::Max ==> clients >= 1,
        algorithm != LayoutType::Max ==> frame.wf() && client.wf(),
    ensures
        r == spec_can_focus_within_frame(
            clients as int,
            index as int,
            dir,
            algorithm,
            *frame,
            *client,
        ),
{
    if let LayoutType::Max = algorithm {
        return match dir {
            ShiftDirection::Right => index < clients - 1,
            ShiftDirection::Left => index > 0,
            ShiftDirection::Up | ShiftDirection::Down => false,
        };
    }
    frame.child_can_move(client, dir)
}

/// The decimal digit characters of one path entry.
pub open spec fn spec_digit_char(d: u8) -> char {
    if d == 0 {
        '0'
    } else if d == 1 {
        '1'
    } else if d == 2 {
        '2'
    } else if d == 3 {
        '3'
    } else if d == 4 {
        '4'
    } else if d == 5 {
        '5'
    } else if d == 6 {
        '6'
    } else if d == 7 {
        '7'
    } else if d == 8 {
        '8'
    } else {
        '9'
    }
}

/// The decimal notation of one path entry.
pub open spec fn spec_u8_decimal(n: u8) -> Seq<char> {
    if n < 10 {
        seq![spec_digit_char(n)]
    } else if n < 100 {
        seq![spec_digit_char(n / 10), spec_digit_char(n % 10)]
    } else {
        seq![spec_digit_char(n / 100), spec_digit_char((n / 10) % 10), spec_digit_char(n % 10)]
    }
}

/// The text of a frame index path: the decimal notation of each entry,
/// concatenated without separators.
pub open spec fn spec_index_string(s: Seq<u8>) -> Seq<char>
    decreases s.len(),
{
    if s.len() == 0 {
        Seq::empty()
    } else {
        spec_u8_decimal(s[0]) + spec_index_string(s.drop_first())
    }
}

fn digit_str(d: u8) -> (r: &'static str)
    requires
        d < 10,
    ensures
        r@ == seq![spec_digit_char(d)],
{
    proof {
        reveal_strlit("0");
        reveal_strlit("1");
        reveal_strlit("2");
        reveal_strlit("3");
        reveal_strlit("4");
        reveal_strlit("5");
        reveal_strlit("6");
        reveal_strlit("7");
        reveal_strlit("8");
        reveal_strlit("9");
    }
    let r = match d {
        0 => "0",
        1 => "1",
        2 => "2",
        3 => "3",
        4 => "4",
        5 => "5",
        6 => "6",
        7 => "7",
        8 => "8",
        _ => "9",
    };
    proof {
        assert(r@ =~= seq![spec_digit_char(d)]);
    }
    r
}

fn push_u8_decimal(out: &mut String, n: u8)
    ensures
        final(out)@ == old(out)@ + spec_u8_decimal(n),
{
    if n < 10 {
        out.append(digit_str(n));
    } else if n < 100 {
        out.append(digit_str(n / 10));
        out.append(digit_str(n % 10));
        proof {
            assert(old(out)@ + seq![spec_digit_char(n / 10)] + seq![spec_digit_char(n % 10)]
                =~= old(out)@ + spec_u8_decimal(n));
        }
    } else {
        out.append(digit_str(n / 100));
        out.append(digit_str((n / 10) % 10));
        out.append(digit_str(n % 10));
        proof {
            assert(old(out)@ + seq![spec_digit_char(n / 100)] + seq![spec_digit_char((n / 10) % 10)]
                + seq![spec_digit_char(n % 10)] =~= old(out)@ + spec_u8_decimal(n));
        }
    }
}

/// Writes a frame index path as the text the window manager's split
/// command takes: the entries' decimal digits, run together.
pub fn index_array_to_string(frame_index: &[u8]) -> (r: String)
    ensures
        r@ == spec_index_string(frame_index@),
{
    let mut out = String::new();
    let mut k: usize = 0;
    proof {
        assert(frame_index@.skip(0) =~= frame_index@);
        assert(out@ + spec_index_string(frame_index@) =~= spec_index_string(frame_index@));
    }
    while k < frame_index.len()
        invariant
            k <= frame_index@.len(),
            out@ + spec_index_string(frame_index@.skip(k as int)) == spec_index_string(
                frame_index@,
            ),
        decreases frame_index@.len() - k,
    {
        proof {
            assert(frame_index@.skip(k as int)[0] == frame_index@[k as int]);
            assert(frame_index@.skip(k as int).drop_first() =~= frame_index@.skip(k + 1));
        }
        push_u8_decimal(&mut out, frame_index[k]);
        k = k + 1;
        proof {
            assert(out@ + spec_index_string(frame_index@.skip(k as int)) =~= spec_index_string(
                frame_index@,
            ));
        }
    }
    proof {
        assert(frame_index@.skip(frame_index@.len() as int) =~= Seq::<u8>::empty());
        assert(out@ =~= out@ + spec_index_string(frame_index@.skip(frame_index@.len() as int)));
    }
    out
}

/// The full decision for one shift invocation, ready to execute: either
/// the move stays inside the focused frame, or the frame itself moves,
/// possibly after a new split, possibly across monitors.
#[derive(Debug, PartialEq)]
pub enum ShiftPlan {
    /// Shift the focused window one slot within its frame.
    MoveWithin,
    /// Move the focused frame: first create a split at `split_at` if one
    /// is named; require an adjacent monitor if `needs_monitor`; then
    /// shift, removing the emptied frame if `remove_frame`.
    Apply { split_at: Option<Vec<u8>>, needs_monitor: bool, remove_frame: bool },
}

/// The mathematical shape of a `ShiftPlan`.
pub enum PlanChoice {
    MoveWithin,
    Apply { split_at: Option<Seq<u8>>, needs_monitor: bool, remove_frame: bool },
}

impl View for ShiftPlan {
    type V = PlanChoice;

    open spec fn view(&self) -> PlanChoice {
        match self {
            ShiftPlan::MoveWithin => PlanChoice::MoveWithin,
            ShiftPlan::Apply { split_at, needs_monitor, remove_frame } => PlanChoice::Apply {
                split_at: match split_at {
                    Some(p) => Some(p@),
                    None => None,
                },
                needs_monitor: *needs_monitor,
                remove_frame: *remove_frame,
            },
        }
    }
}

/// What one shift invocation decides, given a full snapshot of the
/// window manager's state: an empty frame is an error; a move that stays
/// inside the frame needs no tree surgery unless the caller asked for a
/// frame-level move; every other move follows `find_split` on the parsed
/// layout dump, removes the frame it empties, and may only cross to
/// another monitor where one exists.
pub open spec fn spec_shift(
    dir: ShiftDirection,
    frame: bool,
    clients: int,
    client_index: int,
    algorithm: LayoutType,
    frame_geometry: Geometry,
    client_geometry: Geometry,
    index: Seq<u8>,
    layout: Seq<u8>,
) -> Result<PlanChoice, ShiftError> {
    if clients == 0 {
        Err(ShiftError::EmptyFrame)
    } else if !frame && spec_can_focus_within_frame(
        clients,
        client_index,
        dir,
        algorithm,
        frame_geometry,
        client_geometry,
    ) {
        Ok(PlanChoice::MoveWithin)
    } else {
        match spec_layout_stack(layout, index) {
            None => Err(ShiftError::MalformedLayoutDump),
            Some(stack) => {
                let act = spec_find_split(clients, dir, index, stack);
                Ok(
                    PlanChoice::Apply {
                        split_at: match act {
                            SplitChoice::Split(p) => Some(p),
                            _ => None,
                        },
                        needs_monitor: act is MoveableGlobal,
                        remove_frame: clients <= 1,
                    },
                )
            },
        }
    }
}

/// Decides one shift invocation from a snapshot of the manager's state:
/// the focused frame's client count, the focused client's index, the
/// frame's algorithm and geometry, the client's geometry, the frame
/// index path and the layout dump. Returns the plan of commands to
/// execute, or the error that ends the invocation.
pub fn shift(
    dir: ShiftDirection,
    frame: bool,
    clients: usize,
    client_index: usize,
    algorithm: LayoutType,
    frame_geometry: &Geometry,
    client_geometry: &Geometry,
    index: &[u8],
    layout: &[u8],
) -> (r: Result<ShiftPlan, ShiftError>)
    requires
        !frame && algorithm != LayoutType::Max ==> frame_geometry.wf() && client_geometry.wf(),
    ensures
        match r {
            Ok(p) => spec_shift(
                dir,
                frame,
                clients as int,
                client_index as int,
                algorithm,
                *frame_geometry,
                *client_geometry,
                index@,
                layout@,
            ) == Ok::<PlanChoice, ShiftError>(p@),
            Err(e) => spec_shift(
                dir,
                frame,
                clients as int,
                client_index as int,
                algorithm,
                *frame_geometry,
                *client_geometry,
                index@,
                layout@,
            ) == Err::<PlanChoice, ShiftError>(e),
        },
{
    if clients == 0 {
        return Err(ShiftError::EmptyFrame);
    }
    if !frame && can_focus_within_frame(
        clients,
        client_index,
        dir,
        algorithm,
        frame_geometry,
        client_geometry,
    ) {
        return Ok(ShiftPlan::MoveWithin);
    }
    let stack = match get_layout_stack(layout, index) {
        Ok(v) => v,
        Err(e) => {
            return Err(e);
        },
    };
    let act = find_split(clients, dir, index, stack.as_slice());
    let needs_monitor = match &act {
        SplitAction::MoveableGlobal => true,
        _ => false,
    };
    let split_at = match act {
        SplitAction::Split(p) => Some(p),
        _ => None,
    };
    Ok(ShiftPlan::Apply { split_at, needs_monitor, remove_frame: clients <= 1 })
}

} // verus!
