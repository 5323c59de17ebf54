//! The width constraint of a layout node.

use vstd::prelude::*;

verus! {

/// A width constraint, in layout units.
///
/// `Percentage` is only meaningful before the scale stage: scaling rewrites
/// every `Percentage(p)` into a `Fixed` width of `p` percent of the document
/// width, rounded down.  `Fill` stays unresolved until a parent supplies a
/// concrete bound during the bound stage.  A percentage is between 0 and 100.
#[derive(Debug, Clone, Copy, PartialEq, Eq, Structural)]
pub enum Width {
    Fixed(u32),
    Percentage(u32),
    Fill,
}

impl Default for Width {
    fn default() -> (w: Width)
        ensures
            w == Width::Fill,
    {
        Width::Fill
    }
}

impl Width {
    /// Whether this width carries a concrete number of units (`Fixed` or
    /// `Percentage`), as opposed to `Fill`.
    pub fn is_fixed(&self) -> (b: bool)
        ensures
            b == !(self is Fill),
    {
        match self {
            Width::Fill => false,
            _ => true,
        }
    }

    /// The spec-level value of a `Fixed` or `Percentage` width.
    pub open spec fn spec_units(self) -> u32
        recommends
            !(self is Fill),
    {
        match self {
            Width::Fixed(w) => w,
            Width::Percentage(w) => w,
            Width::Fill => 0,
        }
    }

    pub fn get_fixed(&self) -> (r: Option<u32>)
        ensures
            r is Some <==> !(self is Fill),
            r matches Some(w) ==> w == self.spec_units(),
    {
        match self {
            Width::Fixed(w) | Width::Percentage(w) => Some(*w),
            Width::Fill => None,
        }
    }

    /// The units of a width known not to be `Fill`.
    pub fn get_fixed_unchecked(&self) -> (w: u32)
        requires
            !(self is Fill),
        ensures
            w == self.spec_units(),
    {
        match self {
            Width::Fixed(w) | Width::Percentage(w) => *w,
            Width::Fill => 0,
        }
    }

    /// What `scale` returns: `Percentage(p)` becomes `Fixed(p * reference / 100)`,
    /// everything else passes through unchanged.
    pub open spec fn spec_scale(self, reference: u32) -> Width {
        match self {
            Width::Percentage(p) => Width::Fixed(((p * reference) / 100) as u32),
            _ => self,
        }
    }

    /// Resolve a percentage against a concrete reference width.
    pub fn scale(&self, reference: u32) -> (r: Width)
        requires
            self matches Width::Percentage(p) ==> p <= 100,
        ensures
            r == self.spec_scale(reference),
    {
        match self {
            Width::Percentage(p) => {
                let pp: u64 = *p as u64;
                let rr: u64 = reference as u64;
                proof {
                    assert(pp * rr <= 100 * 0xffff_ffffu64) by (nonlinear_arith)
                        requires
                            pp <= 100,
                            rr <= 0xffff_ffffu64,
                    ;
                    assert(pp * rr / 100 <= rr) by (nonlinear_arith)
                        requires
                            pp <= 100,
                            0 <= rr,
                    ;
                }
                let units: u64 = pp * rr / 100;
                Width::Fixed(units as u32)
            },
            Width::Fixed(w) => Width::Fixed(*w),
            Width::Fill => Width::Fill,
        }
    }
}

} // verus!
