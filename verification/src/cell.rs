use vstd::prelude::*;

verus! {

/// Number of distinct hue values. A cell's hue is the fraction
/// `hue / HUE_STEPS` of a full color circle, so it always lies in `[0, 1)`.
pub const HUE_STEPS: u32 = 1024;

/// The smallest unit of board and piece state: a colored unit square.
/// The hue is visual identity only; the engine never branches on it.
#[derive(Clone, Copy, Debug)]
pub struct Cell {
    pub hue: u32,
}

impl Cell {
    /// The hue is a fixed-point fraction numerator below `HUE_STEPS`.
    pub open spec fn wf(self) -> bool {
        self.hue < HUE_STEPS
    }

    pub fn new(hue: u32) -> (c: Cell)
        ensures
            c.hue == hue,
    {
        Cell { hue }
    }
}

/// One cell of a piece together with its position relative to the piece's
/// origin. Relative coordinates may be negative.
#[derive(Clone, Copy, Debug)]
pub struct CellWithRelativePosition {
    pub cell: Cell,
    pub x: i32,
    pub y: i32,
}

} // verus!
