use vstd::prelude::*;

verus! {

/// The state of one intersection of the board: a black stone, a white
/// stone, or nothing.
#[derive(Clone, Copy, Debug, PartialEq, Eq, Structural)]
pub enum Cell {
    Black,
    White,
    Empty,
}

/// What a placement call did: `Applied` when the coordinate was on the
/// board and the cell was written, `OutOfRange` when the coordinate was
/// off the board and the call left everything unchanged.
#[derive(Clone, Copy, Debug, PartialEq, Eq, Structural)]
pub enum PlaceOutcome {
    Applied,
    OutOfRange,
}

} // verus!
