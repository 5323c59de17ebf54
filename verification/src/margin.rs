//! Spacing around a container or element.

use vstd::prelude::*;

verus! {

/// Non-negative spacing applied around a container or element, in layout
/// units.  The default margin is zero on every side.
#[derive(Debug, Clone, Copy, PartialEq, Eq, Structural)]
pub struct Margin {
    pub top: u32,
    pub bottom: u32,
    pub left: u32,
    pub right: u32,
}

impl Margin {
    pub fn new(top: u32, bottom: u32, left: u32, right: u32) -> (m: Margin)
        ensures
            m.top == top && m.bottom == bottom && m.left == left && m.right == right,
    {
        Margin { top, bottom, left, right }
    }

    /// The all-zero margin.
    pub fn zero() -> (m: Margin)
        ensures
            m == (Margin { top: 0u32, bottom: 0u32, left: 0u32, right: 0u32 }),
    {
        Margin { top: 0, bottom: 0, left: 0, right: 0 }
    }

    pub fn with_top(self, top: u32) -> (m: Margin)
        ensures
            m == (Margin { top, ..self }),
    {
        Margin { top, ..self }
    }

    pub fn with_bottom(self, bottom: u32) -> (m: Margin)
        ensures
            m == (Margin { bottom, ..self }),
    {
        Margin { bottom, ..self }
    }

    pub fn with_left(self, left: u32) -> (m: Margin)
        ensures
            m == (Margin { left, ..self }),
    {
        Margin { left, ..self }
    }

    pub fn with_right(self, right: u32) -> (m: Margin)
        ensures
            m == (Margin { right, ..self }),
    {
        Margin { right, ..self }
    }
}

impl Default for Margin {
    fn default() -> (m: Margin)
        ensures
            m == (Margin { top: 0u32, bottom: 0u32, left: 0u32, right: 0u32 }),
    {
        Margin::zero()
    }
}

} // verus!
