use vstd::prelude::*;

verus! {

/// State of one grid square: a solid wall or an open corridor.
#[derive(Clone, Copy, Debug, PartialEq, Eq, Structural)]
pub enum Cell {
    Wall,
    Path,
}

} // verus!
