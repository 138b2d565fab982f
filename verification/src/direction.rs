use vstd::prelude::*;

verus! {

/// The four directions a cursor can be moved in.
#[derive(Clone, Copy, PartialEq, Eq, Structural, Debug)]
pub enum Direction {
    Up,
    Down,
    Left,
    Right,
}

} // verus!
