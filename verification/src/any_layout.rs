//! The pagination orchestrator: renders a document's sections into pages of
//! positioned boxes.
//!
//! Sections are processed in order.  Each unit — a section header or one
//! section item — is bound to its record, normalized against the column
//! width and laid out at the running vertical cursor.  When the unit would
//! end below the page's bottom margin and the cursor has left the top, the
//! unit moves to the next column (under double-column mode) or to the top of
//! a fresh page.  The output keeps one group of boxes per unit, so later
//! stages can draw per-group borders.

use vstd::prelude::*;

use crate::data_schema::{data_schema_names, find_data_schema, DataSchema};
use crate::element::{Element, ElementView};
use crate::error::LayoutError;
use crate::font::FontDict;
use crate::layout::{
    lemma_bound_preserves, lemma_boxes_bounds, lemma_boxes_monotone, lemma_break_preserves,
    box_views, lemma_boxes_in_peak, lemma_fill_preserves, lemma_instantiate_instantiated,
    lemma_instantiate_preserves, lemma_scale_preserves, spec_boxes, Layout, LayoutView,
};
use crate::document::DocumentDefinition;
use crate::layout_schema::{find_layout_schema, layout_schema_names, spec_find_schema, LayoutSchema};
use crate::point::Point;
use crate::resume_data::{ItemContentView, ItemRecord, ResumeData, ResumeSection};
use crate::resume_layout::{ColumnType, ResumeLayout};
use crate::spatial_box::SpatialBox;

verus! {

/// One laid-out unit: the region it was given and the positioned boxes of
/// its text leaves.
#[derive(Debug)]
pub struct ElementBox {
    pub bounding_box: SpatialBox,
    pub elements: Vec<(SpatialBox, Element)>,
}

/// The tree a unit is laid out from: its template bound to its record and
/// normalized against the column width.
pub open spec fn spec_unit_tree(
    template: LayoutView,
    rec: Seq<(Seq<char>, ItemContentView)>,
    width: u32,
    d: FontDict,
) -> LayoutView {
    template.spec_instantiate(rec).spec_normalize(width, d)
}

/// Whether normalizing the unit stops with a frozen-row contradiction.
pub open spec fn spec_unit_overflows(
    template: LayoutView,
    rec: Seq<(Seq<char>, ItemContentView)>,
    width: u32,
    d: FontDict,
) -> bool {
    template.spec_instantiate(rec).spec_normalize_overflows(width, d)
}

/// Whether the unit's geometry stays within the machine's integers wherever
/// the flow can place it: its largest coordinate when laid out at the very
/// bottom of the page, plus the page width for the horizontal shift into a
/// column, still fits.
pub open spec fn spec_unit_fits(
    template: LayoutView,
    rec: Seq<(Seq<char>, ItemContentView)>,
    width: u32,
    d: FontDict,
    layout: ResumeLayout,
) -> bool {
    spec_boxes(spec_unit_tree(template, rec, width, d), d, 0, layout.height as int).2
        + layout.width <= u32::MAX
}

impl ResumeLayout {
    /// Well-formedness of the page geometry: the vertical margins fit the
    /// page height, and the horizontal margins with the gutter fit the page
    /// width.
    pub open spec fn spec_wf(self) -> bool {
        self.margin.top <= self.height && self.margin.bottom <= self.height && self.margin.left
            + self.margin.right + (match self.column_type {
            ColumnType::SingleColumn => 0,
            ColumnType::DoubleColumn { vertical_margin } => vertical_margin,
        }) <= self.width
    }
}

/// How many boxes the finished pages hold.
pub open spec fn boxes_on_pages(pages: Seq<Vec<ElementBox>>) -> int
    decreases pages,
{
    if pages.len() == 0 {
        0
    } else {
        pages.first()@.len() + boxes_on_pages(pages.drop_first())
    }
}

/// Appending a page adds its boxes to the count.
pub proof fn lemma_boxes_on_pages_push(pages: Seq<Vec<ElementBox>>, page: Vec<ElementBox>)
    ensures
        boxes_on_pages(pages.push(page)) == boxes_on_pages(pages) + page@.len(),
    decreases pages,
{
    if pages.len() == 0 {
        assert(pages.push(page).first() == page);
        assert(pages.push(page).drop_first() =~= Seq::<Vec<ElementBox>>::empty());
        assert(boxes_on_pages(pages.push(page).drop_first()) == 0);
    } else {
        assert(pages.push(page).drop_first() =~= pages.drop_first().push(page));
        assert(pages.push(page).first() == pages.first());
        lemma_boxes_on_pages_push(pages.drop_first(), page);
        assert(boxes_on_pages(pages.push(page)) == pages.first()@.len() + boxes_on_pages(
            pages.push(page).drop_first(),
        ));
        assert(boxes_on_pages(pages.push(page).drop_first()) == boxes_on_pages(
            pages.drop_first().push(page),
        ));
    }
}

/// How many columns a page offers.
pub open spec fn spec_column_count(layout: ResumeLayout) -> int {
    match layout.column_type {
        ColumnType::SingleColumn => 1,
        ColumnType::DoubleColumn { .. } => 2,
    }
}

/// The horizontal offset of a column's content: the left margin, plus one
/// column width and the gutter for the second column.
pub open spec fn spec_column_offset(layout: ResumeLayout, column: int) -> int {
    if column == 0 {
        layout.margin.left as int
    } else {
        layout.margin.left + layout.spec_column_width() + (match layout.column_type {
            ColumnType::SingleColumn => 0int,
            ColumnType::DoubleColumn { vertical_margin } => vertical_margin as int,
        })
    }
}

/// Whether a unit laid out at the cursor must move to a fresh column or
/// page: its content would end below the bottom margin while the cursor has
/// already left the top margin.
pub open spec fn spec_must_break(
    unit: LayoutView,
    d: FontDict,
    cursor: u32,
    layout: ResumeLayout,
) -> bool {
    spec_boxes(unit, d, 0, cursor as int).0 > layout.height - layout.margin.bottom && cursor
        > layout.margin.top
}

/// One positioned box shifted right by `dx`.
pub open spec fn spec_shift_box(b: SpatialBox, dx: int) -> SpatialBox {
    SpatialBox {
        top_left: Point { x: (b.top_left.x + dx) as u32, y: b.top_left.y },
        bottom_right: Point { x: (b.bottom_right.x + dx) as u32, y: b.bottom_right.y },
    }
}

/// A unit's boxes shifted right into its column.
pub open spec fn spec_shift_boxes(bs: Seq<(SpatialBox, ElementView)>, dx: int) -> Seq<
    (SpatialBox, ElementView),
> {
    Seq::new(
        bs.len(),
        |i: int|
            if 0 <= i < bs.len() {
                (spec_shift_box(bs[i].0, dx), bs[i].1)
            } else {
                bs[i]
            },
    )
}

/// Where one placed unit lands and what it appends to the flow: the break
/// decision, the cursor it was placed at, the column and page bookkeeping,
/// and that the appended group holds exactly the unit's boxes at that
/// cursor, shifted into its column, under the column-wide bounding box.
pub open spec fn spec_placed(
    pre: PageFlow,
    post: PageFlow,
    unit: LayoutView,
    d: FontDict,
    layout: ResumeLayout,
) -> bool {
    let brk = spec_must_break(unit, d, pre.cursor, layout);
    let placed: u32 = if brk {
        layout.margin.top
    } else {
        pre.cursor
    };
    let dep = spec_boxes(unit, d, 0, placed as int).0;
    let newpage = brk && pre.column + 1 >= spec_column_count(layout);
    let col: int = if !brk {
        pre.column as int
    } else if pre.column + 1 < spec_column_count(layout) {
        pre.column + 1
    } else {
        0
    };
    let off = spec_column_offset(layout, col);
    &&& post.column == col
    &&& post.cursor == (if dep <= layout.height {
        dep
    } else {
        layout.height as int
    })
    &&& post.pages@ == (if newpage {
        pre.pages@.push(pre.current)
    } else {
        pre.pages@
    })
    &&& post.current@.len() == (if newpage {
        1int
    } else {
        pre.current@.len() as int + 1
    })
    &&& (!newpage ==> post.current@.take(pre.current@.len() as int) == pre.current@)
    &&& post.current@.last().bounding_box == (SpatialBox {
        top_left: Point { x: off as u32, y: placed },
        bottom_right: Point {
            x: (off + layout.spec_column_width()) as u32,
            y: dep as u32,
        },
    })
    &&& box_views(post.current@.last().elements@) == spec_shift_boxes(
        spec_boxes(unit, d, 0, placed as int).1,
        off,
    )
}

/// The flow state pagination threads through the units: finished pages, the
/// page being filled, the column being filled and the vertical cursor.
pub struct PageFlow {
    pub pages: Vec<Vec<ElementBox>>,
    pub current: Vec<ElementBox>,
    pub column: u32,
    pub cursor: u32,
}

impl PageFlow {
    /// The flow invariant against a page geometry: the cursor never leaves
    /// the page and the column index stays in range.
    pub open spec fn wf(self, layout: ResumeLayout) -> bool {
        self.cursor <= layout.height && self.column < spec_column_count(layout)
    }

    /// How many units were placed so far.
    pub open spec fn count(self) -> int {
        boxes_on_pages(self.pages@) + self.current@.len()
    }

    /// An empty flow starting at the page's top margin.
    pub fn new(layout: &ResumeLayout) -> (r: PageFlow)
        requires
            layout.spec_wf(),
        ensures
            r.wf(*layout),
            r.count() == 0,
            r.pages@.len() == 0,
    {
        PageFlow { pages: Vec::new(), current: Vec::new(), column: 0, cursor: layout.margin.top }
    }

    /// Close the page being filled: it joins the finished pages even when it
    /// is empty, so a document with no units still has one page.
    pub fn finish(&mut self) -> (r: Vec<Vec<ElementBox>>)
        ensures
            boxes_on_pages(r@) == old(self).count(),
            r@.len() == old(self).pages@.len() + 1,
    {
        let mut fresh: Vec<ElementBox> = Vec::new();
        core::mem::swap(&mut fresh, &mut self.current);
        proof {
            lemma_boxes_on_pages_push(self.pages@, fresh);
        }
        self.pages.push(fresh);
        let mut out: Vec<Vec<ElementBox>> = Vec::new();
        core::mem::swap(&mut out, &mut self.pages);
        out
    }

    /// Bind, normalize and place one unit at the cursor; when it would end
    /// below the bottom margin and the cursor has left the top, it moves to
    /// the next column or to the top of a fresh page instead.  The unit's
    /// boxes are shifted into the current column and appended as one group.
    pub fn place_unit(
        &mut self,
        template: &Layout,
        record: &ItemRecord,
        layout: &ResumeLayout,
        font_dict: &FontDict,
    ) -> (r: Result<(), LayoutError>)
        requires
            old(self).wf(*layout),
            layout.spec_wf(),
            template@.widths_ok(),
            template@.fonts_ok(*font_dict),
            spec_unit_fits(template@, record@, layout.spec_column_width(), *font_dict, *layout),
        ensures
            final(self).wf(*layout),
            !spec_unit_overflows(template@, record@, layout.spec_column_width(), *font_dict) ==> (
            r is Ok && final(self).count() == old(self).count() + 1 && spec_placed(
                *old(self),
                *final(self),
                spec_unit_tree(template@, record@, layout.spec_column_width(), *font_dict),
                *font_dict,
                *layout,
            )),
            spec_unit_overflows(template@, record@, layout.spec_column_width(), *font_dict) ==> r
                == Err::<(), LayoutError>(LayoutError::FrozenRowOverflow) && *final(self) == *old(
                self,
            ),
    {
        let ghost pre = *old(self);
        let ghost d = *font_dict;
        let colw = layout.column_width();
        let doc = DocumentDefinition { width: colw, height: layout.height };
        let inst = template.instantiate(record);
        proof {
            lemma_instantiate_instantiated(template@, record@);
            lemma_instantiate_preserves(template@, record@, d);
        }
        let norm = match inst.normalize(&doc, font_dict) {
            Ok(n) => n,
            Err(e) => {
                return Err(e);
            },
        };
        let ghost inst_v = template@.spec_instantiate(record@);
        let ghost after_bound = inst_v.spec_scale(colw).spec_bound(colw);
        let ghost unit = spec_unit_tree(template@, record@, colw, d);
        proof {
            lemma_scale_preserves(inst_v, colw, d);
            lemma_bound_preserves(inst_v.spec_scale(colw), colw, d);
            lemma_fill_preserves(after_bound, d);
            lemma_break_preserves(after_bound.spec_fill_fonts(d), d);
            assert(norm@ == unit);
            assert(norm@.is_instantiated() && norm@.is_bounded() && norm@.frozen_free());
            assert(norm@.fonts_ok(d));
            lemma_boxes_monotone(unit, d, 0, 0, self.cursor as int, layout.height as int);
        }
        let (dep, boxes) = match norm.compute_boxes(self.cursor, font_dict) {
            Ok(p) => p,
            Err(_) => {
                proof {
                    assert(false);
                }
                return Err(LayoutError::UnboundedGeometry);
            },
        };
        let top = layout.margin.top;
        let bottom = layout.height - layout.margin.bottom;
        let ncols = layout.column_type.column_count();
        let ghost brk = spec_must_break(unit, d, pre.cursor, *layout);
        let mut placed_at = self.cursor;
        let mut dep2 = dep;
        let mut boxes2 = boxes;
        proof {
            assert((dep > bottom && pre.cursor > top) == brk);
        }
        if dep > bottom && self.cursor > top {
            if self.column + 1 < ncols {
                self.column = self.column + 1;
            } else {
                let mut fresh: Vec<ElementBox> = Vec::new();
                core::mem::swap(&mut fresh, &mut self.current);
                proof {
                    lemma_boxes_on_pages_push(self.pages@, fresh);
                }
                self.pages.push(fresh);
                self.column = 0;
            }
            proof {
                lemma_boxes_monotone(unit, d, 0, 0, top as int, layout.height as int);
            }
            let (ndep, nboxes) = match norm.compute_boxes(top, font_dict) {
                Ok(p) => p,
                Err(_) => {
                    proof {
                        assert(false);
                    }
                    return Err(LayoutError::UnboundedGeometry);
                },
            };
            placed_at = top;
            dep2 = ndep;
            boxes2 = nboxes;
        }
        proof {
            assert(placed_at == (if brk {
                layout.margin.top
            } else {
                pre.cursor
            }));
            assert(dep2 == spec_boxes(unit, d, 0, placed_at as int).0);
            assert(box_views(boxes2@) == spec_boxes(unit, d, 0, placed_at as int).1);
            assert(self.column as int == (if !brk {
                pre.column as int
            } else if pre.column + 1 < spec_column_count(*layout) {
                pre.column + 1
            } else {
                0
            }));
            if brk && pre.column + 1 >= spec_column_count(*layout) {
                assert(self.pages@ == pre.pages@.push(pre.current));
                assert(self.current@ =~= Seq::<ElementBox>::empty());
            } else {
                assert(self.pages@ == pre.pages@);
                assert(self.current@ == pre.current@);
            }
        }
        let gutter = layout.column_type.vertical_margin();
        proof {
            match layout.column_type {
                ColumnType::SingleColumn => {
                    assert(gutter == 0);
                    assert(colw <= layout.width);
                    assert(self.column == 0);
                },
                ColumnType::DoubleColumn { vertical_margin } => {
                    let h = layout.margin.left + layout.margin.right;
                    if layout.width > h + vertical_margin {
                        let room = layout.width - h - vertical_margin;
                        vstd::arithmetic::div_mod::lemma_fundamental_div_mod(room as int, 2);
                        assert(colw <= room);
                    }
                    assert(colw + gutter <= layout.width);
                    assert(layout.margin.left + colw + gutter <= layout.width);
                },
            }
        }
        let x_off: u32 = if self.column == 0 {
            layout.margin.left
        } else {
            layout.margin.left + colw + gutter
        };
        proof {
            assert(x_off <= layout.width);
        }
        let ghost peak = spec_boxes(unit, d, 0, placed_at as int).2;
        proof {
            lemma_boxes_monotone(unit, d, 0, 0, placed_at as int, layout.height as int);
            lemma_boxes_bounds(unit, d, 0, placed_at as int);
        }
        let mut moved: Vec<(SpatialBox, Element)> = Vec::new();
        let mut i: usize = 0;
        #[verifier::loop_isolation(false)]
        while i < boxes2.len()
            invariant
                i <= boxes2@.len(),
                moved@.len() == i,
                forall|j: int|
                    0 <= j < i ==> #[trigger] moved@[j].0 == spec_shift_box(
                        spec_boxes(unit, d, 0, placed_at as int).1[j].0,
                        x_off as int,
                    ) && moved@[j].1@ == spec_boxes(unit, d, 0, placed_at as int).1[j].1,
            decreases boxes2@.len() - i,
        {
            proof {
                lemma_boxes_in_peak(unit, d, 0, placed_at as int);
                assert(box_views(boxes2@)[i as int] == (boxes2@[i as int].0,
                boxes2@[i as int].1@));
                assert(boxes2@[i as int].0 == spec_boxes(unit, d, 0, placed_at as int).1[i as int].0);
                assert(boxes2@[i as int].1@ == spec_boxes(unit, d, 0, placed_at as int).1[i as int].1);
            }
            let bb = boxes2[i].0;
            let b = SpatialBox {
                top_left: Point { x: bb.top_left.x + x_off, y: bb.top_left.y },
                bottom_right: Point { x: bb.bottom_right.x + x_off, y: bb.bottom_right.y },
            };
            proof {
                assert(b == spec_shift_box(bb, x_off as int));
            }
            moved.push((b, boxes2[i].1.duplicate()));
            i = i + 1;
        }
        proof {
            match layout.column_type {
                ColumnType::SingleColumn => {
                    assert(x_off + colw <= layout.width);
                },
                ColumnType::DoubleColumn { vertical_margin } => {
                    let h = layout.margin.left + layout.margin.right;
                    if layout.width > h + vertical_margin {
                        let room = layout.width - h - vertical_margin;
                        vstd::arithmetic::div_mod::lemma_fundamental_div_mod(room as int, 2);
                        assert(2 * (colw as int) <= room);
                    }
                    assert(x_off + colw <= layout.width);
                },
            }
        }
        proof {
            let sb = spec_boxes(unit, d, 0, placed_at as int);
            assert(moved@.len() == sb.1.len());
            assert forall|j: int| 0 <= j < sb.1.len() implies box_views(moved@)[j]
                == spec_shift_boxes(sb.1, x_off as int)[j] by {
                assert(box_views(moved@)[j] == (moved@[j].0, moved@[j].1@));
                assert(spec_shift_boxes(sb.1, x_off as int)[j] == (spec_shift_box(
                    sb.1[j].0,
                    x_off as int,
                ), sb.1[j].1));
            }
            assert(box_views(moved@) =~= spec_shift_boxes(sb.1, x_off as int));
            assert(x_off as int == spec_column_offset(*layout, self.column as int));
        }
        let ghost before_push = self.current@;
        let bounding = SpatialBox {
            top_left: Point { x: x_off, y: placed_at },
            bottom_right: Point { x: x_off + colw, y: dep2 },
        };
        self.current.push(ElementBox { bounding_box: bounding, elements: moved });
        self.cursor = if dep2 <= layout.height {
            dep2
        } else {
            layout.height
        };
        proof {
            assert(self.current@.last().bounding_box == bounding);
            assert(self.current@.take(before_push.len() as int) =~= before_push);
            assert(spec_placed(pre, *self, unit, d, *layout));
        }
        Ok(())
    }
}

/// How many units a document holds: one header per section plus one unit
/// per item.
pub open spec fn units_count(sections: Seq<ResumeSection>) -> int
    decreases sections,
{
    if sections.len() == 0 {
        0
    } else {
        1 + sections.first().items@.len() + units_count(sections.drop_first())
    }
}

/// The unit count over a prefix one longer grows by the section's units.
pub proof fn lemma_units_count_take_step(sections: Seq<ResumeSection>, i: int)
    requires
        0 <= i < sections.len(),
    ensures
        units_count(sections.take(i + 1)) == units_count(sections.take(i)) + 1 + sections[i].items@.len(),
    decreases i,
{
    if i == 0 {
        assert(sections.take(1).drop_first() =~= Seq::<ResumeSection>::empty());
        assert(sections.take(0) =~= Seq::<ResumeSection>::empty());
        assert(sections.take(1).first() == sections[0]);
    } else {
        lemma_units_count_take_step(sections.drop_first(), i - 1);
        assert(sections.take(i + 1).drop_first() =~= sections.drop_first().take(i));
        assert(sections.take(i).drop_first() =~= sections.drop_first().take(i - 1));
        assert(sections.take(i + 1).first() == sections.first());
        assert(sections.take(i).first() == sections.first());
        assert(sections.drop_first()[i - 1] == sections[i]);
    }
}

/// Whether some section references a layout or data schema that the loaded
/// sets lack.
pub open spec fn spec_missing_schema(
    schemas: Seq<LayoutSchema>,
    dschemas: Seq<DataSchema>,
    sections: Seq<ResumeSection>,
) -> bool {
    exists|si: int|
        0 <= si < sections.len() && (spec_find_schema(
            layout_schema_names(schemas),
            (#[trigger] sections[si]).layout_schema@,
        ) is None || spec_find_schema(data_schema_names(dschemas), sections[si].data_schema@)
            is None)
}

/// Whether a section's templates and records are ready to render: its
/// schema's templates have sound widths and measurable fonts, and every
/// unit's geometry fits the machine's integers.
pub open spec fn spec_section_ready(
    schemas: Seq<LayoutSchema>,
    sec: ResumeSection,
    width: u32,
    d: FontDict,
    layout: ResumeLayout,
) -> bool {
    match spec_find_schema(layout_schema_names(schemas), sec.layout_schema@) {
        Some(k) => {
            let ls = schemas[k];
            &&& ls.header_layout_schema@.widths_ok()
            &&& ls.header_layout_schema@.fonts_ok(d)
            &&& ls.item_layout_schema@.widths_ok()
            &&& ls.item_layout_schema@.fonts_ok(d)
            &&& spec_unit_fits(ls.header_layout_schema@, sec.data@, width, d, layout)
            &&& forall|ii: int|
                0 <= ii < sec.items@.len() ==> spec_unit_fits(
                    ls.item_layout_schema@,
                    (#[trigger] sec.items@[ii])@,
                    width,
                    d,
                    layout,
                )
        },
        None => true,
    }
}

/// Readiness of every section.
pub open spec fn spec_sections_ready(
    schemas: Seq<LayoutSchema>,
    sections: Seq<ResumeSection>,
    width: u32,
    d: FontDict,
    layout: ResumeLayout,
) -> bool {
    forall|si: int|
        0 <= si < sections.len() ==> spec_section_ready(
            schemas,
            #[trigger] sections[si],
            width,
            d,
            layout,
        )
}

/// Whether some unit of the section runs into a frozen-row contradiction.
pub open spec fn spec_section_overflows(
    schemas: Seq<LayoutSchema>,
    sec: ResumeSection,
    width: u32,
    d: FontDict,
) -> bool {
    match spec_find_schema(layout_schema_names(schemas), sec.layout_schema@) {
        Some(k) => {
            let ls = schemas[k];
            spec_unit_overflows(ls.header_layout_schema@, sec.data@, width, d) || exists|ii: int|
                0 <= ii < sec.items@.len() && spec_unit_overflows(
                    ls.item_layout_schema@,
                    (#[trigger] sec.items@[ii])@,
                    width,
                    d,
                )
        },
        None => false,
    }
}

/// Whether some unit of some section runs into a frozen-row contradiction.
pub open spec fn spec_any_overflow(
    schemas: Seq<LayoutSchema>,
    sections: Seq<ResumeSection>,
    width: u32,
    d: FontDict,
) -> bool {
    exists|si: int|
        0 <= si < sections.len() && spec_section_overflows(
            schemas,
            #[trigger] sections[si],
            width,
            d,
        )
}

/// The pagination orchestrator.
pub struct AnyLayout;

impl AnyLayout {
    /// Render a document: bind, normalize and place every section header
    /// and item in order, breaking to new columns and pages as the cursor
    /// runs out, and return the finished pages.  A section that references
    /// a missing layout or data schema aborts the render; so does a unit
    /// whose frozen row cannot hold its children.
    pub fn render(
        layout_schemas: &Vec<LayoutSchema>,
        resume_data: &ResumeData,
        data_schemas: &Vec<DataSchema>,
        resume_layout: &ResumeLayout,
        font_dict: &FontDict,
    ) -> (r: Result<Vec<Vec<ElementBox>>, LayoutError>)
        requires
            resume_layout.spec_wf(),
            spec_sections_ready(
                layout_schemas@,
                resume_data.sections@,
                resume_layout.spec_column_width(),
                *font_dict,
                *resume_layout,
            ),
        ensures
            !spec_missing_schema(layout_schemas@, data_schemas@, resume_data.sections@)
                && !spec_any_overflow(
                layout_schemas@,
                resume_data.sections@,
                resume_layout.spec_column_width(),
                *font_dict,
            ) ==> (r matches Ok(pages) && boxes_on_pages(pages@) == units_count(
                resume_data.sections@,
            ) && pages@.len() >= 1),
            r matches Err(e) ==> ((e matches LayoutError::SchemaNotFound(_)
                && spec_missing_schema(layout_schemas@, data_schemas@, resume_data.sections@)) || (
            e == LayoutError::FrozenRowOverflow && spec_any_overflow(
                layout_schemas@,
                resume_data.sections@,
                resume_layout.spec_column_width(),
                *font_dict,
            ))),
    {
        let ghost d = *font_dict;
        let ghost sections = resume_data.sections@;
        let colw = resume_layout.column_width();
        let mut flow = PageFlow::new(resume_layout);
        let mut si: usize = 0;
        proof {
            assert(sections.take(0) =~= Seq::<ResumeSection>::empty());
        }
        #[verifier::loop_isolation(false)]
        while si < resume_data.sections.len()
            invariant
                si <= sections.len(),
                flow.wf(*resume_layout),
                flow.count() == units_count(sections.take(si as int)),
            decreases sections.len() - si,
        {
            let sec = &resume_data.sections[si];
            let ls = match find_layout_schema(layout_schemas, sec.layout_schema.as_str()) {
                Some(ls) => ls,
                None => {
                    proof {
                        assert(spec_missing_schema(layout_schemas@, data_schemas@, sections));
                    }
                    return Err(LayoutError::SchemaNotFound(sec.layout_schema.clone()));
                },
            };
            let ghost k = spec_find_schema(
                layout_schema_names(layout_schemas@),
                sec.layout_schema@,
            )->Some_0;
            if find_data_schema(data_schemas, sec.data_schema.as_str()).is_none() {
                proof {
                    assert(spec_missing_schema(layout_schemas@, data_schemas@, sections));
                }
                return Err(LayoutError::SchemaNotFound(sec.data_schema.clone()));
            }
            proof {
                assert(spec_section_ready(layout_schemas@, sections[si as int], colw, d,
                *resume_layout));
                assert(*ls == layout_schemas@[k]);
            }
            match flow.place_unit(&ls.header_layout_schema, &sec.data, resume_layout, font_dict) {
                Ok(_) => {},
                Err(e) => {
                    proof {
                        assert(spec_section_overflows(layout_schemas@, sections[si as int], colw,
                        d));
                    }
                    return Err(e);
                },
            }
            let mut ii: usize = 0;
            #[verifier::loop_isolation(false)]
            while ii < sec.items.len()
                invariant
                    ii <= sec.items@.len(),
                    flow.wf(*resume_layout),
                    flow.count() == units_count(sections.take(si as int)) + 1 + ii,
                decreases sec.items@.len() - ii,
            {
                match flow.place_unit(
                    &ls.item_layout_schema,
                    &sec.items[ii],
                    resume_layout,
                    font_dict,
                ) {
                    Ok(_) => {},
                    Err(e) => {
                        proof {
                            assert(spec_unit_overflows(
                                ls.item_layout_schema@,
                                sec.items@[ii as int]@,
                                colw,
                                d,
                            ));
                            assert(spec_section_overflows(layout_schemas@, sections[si as int],
                            colw, d));
                        }
                        return Err(e);
                    },
                }
                ii = ii + 1;
            }
            proof {
                lemma_units_count_take_step(sections, si as int);
            }
            si = si + 1;
        }
        proof {
            assert(sections.take(si as int) =~= sections);
        }
        let pages = flow.finish();
        Ok(pages)
    }
}

} // verus!
