//! The errors a render can surface.

use vstd::prelude::*;

verus! {

/// Why a render of the current document was aborted.
///
/// - `SchemaNotFound` carries the name of a layout or data schema that a
///   section references but the loaded schema set lacks.
/// - `FrozenRowOverflow` reports a frozen row whose children's total width
///   exceeds its declared width: a template-authoring contradiction that must
///   not be silently wrapped.
/// - `UnboundedGeometry` reports geometry computation invoked on a tree that
///   still holds `Fill` widths, `Ref` leaves or frozen rows: a
///   pipeline-ordering bug, not bad input data.
#[derive(Debug, Clone, PartialEq)]
pub enum LayoutError {
    SchemaNotFound(String),
    FrozenRowOverflow,
    UnboundedGeometry,
}

impl LayoutError {
    /// A short human-readable description of the error.
    pub fn as_text(&self) -> (r: &'static str)
        ensures
            self is SchemaNotFound ==> r@ == "schema not found"@,
            self is FrozenRowOverflow ==> r@ == "frozen row overflow"@,
            self is UnboundedGeometry ==> r@ == "unbounded geometry"@,
    {
        match self {
            LayoutError::SchemaNotFound(_) => "schema not found",
            LayoutError::FrozenRowOverflow => "frozen row overflow",
            LayoutError::UnboundedGeometry => "unbounded geometry",
        }
    }
}

} // verus!
