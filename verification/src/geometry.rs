//! Plain geometric values: screen rectangles and directions.

use vstd::prelude::*;

verus! {

/// Axis along which a split container arranges its children.
#[derive(Clone, Copy, Debug, PartialEq, Eq, Structural)]
pub enum TilingDirection {
    Horizontal,
    Vertical,
}

impl TilingDirection {
    /// The other axis: what toggling a container's tiling direction
    /// switches to.
    pub fn inverse(self) -> (r: TilingDirection)
        ensures
            r == (match self {
                TilingDirection::Horizontal => TilingDirection::Vertical,
                TilingDirection::Vertical => TilingDirection::Horizontal,
            }),
    {
        match self {
            TilingDirection::Horizontal => TilingDirection::Vertical,
            TilingDirection::Vertical => TilingDirection::Horizontal,
        }
    }
}

/// A direction on the screen, used by focus and move commands.
#[derive(Clone, Copy, Debug, PartialEq, Eq, Structural)]
pub enum Direction {
    Up,
    Down,
    Left,
    Right,
}

/// An axis-aligned screen rectangle: origin plus extent, in pixels.
#[derive(Clone, Copy, Debug, PartialEq, Eq, Structural)]
pub struct Rect {
    pub x: i32,
    pub y: i32,
    pub width: i32,
    pub height: i32,
}

} // verus!
