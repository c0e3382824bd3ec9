//! What the input hook hands to the sending side of the server.

use vstd::prelude::*;

use crate::display::Did;

verus! {

/// What a message asks of the client that receives it.
#[derive(Debug, Clone, Copy, PartialEq, Eq, Structural)]
pub enum Action {
    /// Place the pointer at the point, which arrives on the display.
    Warp,
    /// Move the pointer to the point.
    Move,
}

/// A pointer instruction for the display `disp`, in that display's own
/// coordinates.
#[derive(Debug, Clone, Copy, PartialEq, Eq, Structural)]
pub struct Message {
    pub disp: Did,
    pub action: Action,
    pub x: i32,
    pub y: i32,
}

} // verus!
