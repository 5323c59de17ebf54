//! How leftover horizontal space in a row is distributed.

use vstd::prelude::*;

verus! {

/// Governs how the leftover horizontal space of a row is distributed among
/// its children: packed to the left or right, centered, or spread evenly
/// between the children.
#[derive(Debug, Clone, Copy, PartialEq, Eq, Structural)]
pub enum Alignment {
    Left,
    Center,
    Right,
    Justified,
}

impl Default for Alignment {
    fn default() -> (a: Alignment)
        ensures
            a == Alignment::Left,
    {
        Alignment::Left
    }
}

} // verus!
