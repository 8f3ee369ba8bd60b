use vstd::prelude::*;

verus! {

/// One square of the board: its home identity (1-based, row-major) and
/// whether it is the blank square.
#[derive(Clone, Copy, Debug, PartialEq, Eq, Structural)]
pub struct Tile {
    pub empty: bool,
    pub id: u8,
}

impl Tile {
    pub fn new(id: u8, empty: bool) -> (r: Tile)
        ensures
            r.id == id,
            r.empty == empty,
    {
        Tile { empty, id }
    }
}

} // verus!
