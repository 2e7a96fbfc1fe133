//! Error kinds of the decision core. Every failure is terminal for the
//! current invocation; nothing is retried.

use vstd::prelude::*;

verus! {

/// What went wrong during one shift invocation.
#[derive(Clone, Copy, Debug, PartialEq, Eq, Structural)]
pub enum ShiftError {
    /// A rectangle string does not match the `<w>x<h>+<x>+<y>` format.
    MalformedGeometry,
    /// The layout dump does not match the grammar, a traversed node is
    /// missing its layout clause, or the frame index path requests a child
    /// that does not exist.
    MalformedLayoutDump,
    /// The focused frame holds no clients; there is nothing to shift.
    EmptyFrame,
    /// A cross-monitor move was required but no monitor lies in that direction.
    NoMonitorInDirection,
    /// A query or command to the window manager failed.
    TransportError,
}

} // verus!
