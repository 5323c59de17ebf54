//! The page geometry a document is laid out against.

use vstd::prelude::*;

verus! {

/// The reference geometry of one page or column, in layout units.  The
/// normalization pipeline resolves percentages and bounds widths against
/// `width`; pagination breaks content at `height`.
#[derive(Debug, Clone, Copy, PartialEq, Eq, Structural)]
pub struct DocumentDefinition {
    pub width: u32,
    pub height: u32,
}

impl DocumentDefinition {
    pub fn new(width: u32, height: u32) -> (d: DocumentDefinition)
        ensures
            d.width == width && d.height == height,
    {
        DocumentDefinition { width, height }
    }
}

} // verus!
