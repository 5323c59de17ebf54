//! The page geometry of a document: size, margins and column mode.

use vstd::prelude::*;

use crate::margin::Margin;

verus! {

/// Whether the page flows in one column, or in two columns separated by a
/// vertical gutter.
#[derive(Debug, Clone, Copy, PartialEq, Eq, Structural)]
pub enum ColumnType {
    SingleColumn,
    DoubleColumn { vertical_margin: u32 },
}

impl ColumnType {
    /// The gutter between the two columns; zero for a single column.
    pub fn vertical_margin(&self) -> (r: u32)
        ensures
            self is SingleColumn ==> r == 0,
            self matches ColumnType::DoubleColumn { vertical_margin } ==> r == vertical_margin,
    {
        match self {
            ColumnType::SingleColumn => 0,
            ColumnType::DoubleColumn { vertical_margin } => *vertical_margin,
        }
    }

    /// How many columns the page has.
    pub fn column_count(&self) -> (r: u32)
        ensures
            self is SingleColumn ==> r == 1,
            self is DoubleColumn ==> r == 2,
    {
        match self {
            ColumnType::SingleColumn => 1,
            ColumnType::DoubleColumn { .. } => 2,
        }
    }
}

impl Default for ColumnType {
    fn default() -> (r: ColumnType)
        ensures
            r == ColumnType::SingleColumn,
    {
        ColumnType::SingleColumn
    }
}

/// The page geometry: column mode, outer margin, and the page's width and
/// height in layout units.
#[derive(Debug, Clone, Copy, PartialEq, Eq, Structural)]
pub struct ResumeLayout {
    pub column_type: ColumnType,
    pub margin: Margin,
    pub width: u32,
    pub height: u32,
}

impl ResumeLayout {
    /// The width one column offers to content: the page width less the left
    /// and right margins, split over the columns with the gutter taken out
    /// under double-column mode.  Zero when the margins and gutter leave no
    /// room.
    pub fn column_width(&self) -> (r: u32)
        ensures
            r == self.spec_column_width(),
    {
        let h = self.margin.left as u64 + self.margin.right as u64;
        match self.column_type {
            ColumnType::SingleColumn => {
                if (self.width as u64) > h {
                    (self.width as u64 - h) as u32
                } else {
                    0
                }
            },
            ColumnType::DoubleColumn { vertical_margin } => {
                if (self.width as u64) > h + vertical_margin as u64 {
                    (((self.width as u64) - h - (vertical_margin as u64)) / 2) as u32
                } else {
                    0
                }
            },
        }
    }

    /// What `column_width` returns.
    pub open spec fn spec_column_width(self) -> u32 {
        let h = self.margin.left + self.margin.right;
        match self.column_type {
            ColumnType::SingleColumn => {
                if self.width > h {
                    (self.width - h) as u32
                } else {
                    0
                }
            },
            ColumnType::DoubleColumn { vertical_margin } => {
                if self.width > h + vertical_margin {
                    ((self.width - h - vertical_margin) / 2) as u32
                } else {
                    0
                }
            },
        }
    }
}

} // verus!
