//! A container of child layouts with margin, alignment and width.

use vstd::prelude::*;

use crate::alignment::Alignment;
use crate::error::LayoutError;
use crate::font::FontDict;
use crate::layout::{layout_views, spec_empty_container, ContainerView, Layout, LayoutView};
use crate::margin::Margin;
use crate::resume_data::ItemRecord;
use crate::width::Width;

verus! {

/// An ordered sequence of child layouts together with the margin, alignment
/// and width constraint they share.
#[derive(Debug)]
pub struct Container {
    pub elements: Vec<Layout>,
    pub margin: Margin,
    pub alignment: Alignment,
    pub width: Width,
}

impl View for Container {
    type V = ContainerView;

    open spec fn view(&self) -> ContainerView
        decreases self,
    {
        ContainerView {
            elements: layout_views(self.elements@),
            margin: self.margin,
            alignment: self.alignment,
            width: self.width,
        }
    }
}

/// A deep copy of a sequence of layouts, with the same model.
pub fn duplicate_layouts(v: &Vec<Layout>) -> (r: Vec<Layout>)
    ensures
        layout_views(r@) == layout_views(v@),
    decreases v,
{
    let mut out: Vec<Layout> = Vec::new();
    let mut i: usize = 0;
    while i < v.len()
        invariant
            i <= v@.len(),
            out@.len() == i,
            forall|j: int| 0 <= j < i ==> #[trigger] out@[j]@ == v@[j]@,
        decreases v@.len() - i,
    {
        proof {
            assert(decreases_to!(v => v@[i as int]));
        }
        out.push(v[i].duplicate());
        i = i + 1;
    }
    proof {
        assert forall|j: int| 0 <= j < out@.len() implies layout_views(out@)[j] == layout_views(
            v@,
        )[j] by {
            assert(layout_views(out@)[j] == out@[j]@);
            assert(layout_views(v@)[j] == v@[j]@);
        }
        assert(layout_views(out@) =~= layout_views(v@));
    }
    out
}

impl Container {
    /// A deep copy of this container, with the same model.
    pub fn duplicate(&self) -> (r: Container)
        ensures
            r@ == self@,
        decreases self,
    {
        let r = Container {
            elements: duplicate_layouts(&self.elements),
            margin: self.margin,
            alignment: self.alignment,
            width: self.width,
        };
        proof {
            assert(r@ =~= self@);
        }
        r
    }

    /// The container with no children, zero margin, left alignment and zero
    /// width: what an unmatched placeholder collapses to.
    pub fn empty_container() -> (c: Container)
        ensures
            c@ == spec_empty_container(),
    {
        let c = Container {
            elements: Vec::new(),
            margin: Margin::zero(),
            alignment: Alignment::Left,
            width: Width::Fixed(0),
        };
        proof {
            assert(c@.elements =~= spec_empty_container().elements);
            assert(c@ =~= spec_empty_container());
        }
        c
    }

    /// The same container with its children replaced.
    pub fn with_elements(&self, elements: Vec<Layout>) -> (r: Container)
        ensures
            r@ == (ContainerView { elements: layout_views(elements@), ..self@ }),
    {
        let r = Container {
            elements,
            margin: self.margin,
            alignment: self.alignment,
            width: self.width,
        };
        proof {
            assert(r@ =~= (ContainerView { elements: layout_views(r.elements@), ..self@ }));
        }
        r
    }

    pub fn with_margin(&self, margin: Margin) -> (r: Container)
        ensures
            r@ == (ContainerView { margin, ..self@ }),
    {
        let r = Container { margin, ..self.duplicate() };
        proof {
            assert(r@ =~= (ContainerView { margin, ..self@ }));
        }
        r
    }

    pub fn with_alignment(&self, alignment: Alignment) -> (r: Container)
        ensures
            r@ == (ContainerView { alignment, ..self@ }),
    {
        let r = Container { alignment, ..self.duplicate() };
        proof {
            assert(r@ =~= (ContainerView { alignment, ..self@ }));
        }
        r
    }

    pub fn with_width(&self, width: Width) -> (r: Container)
        ensures
            r@ == (ContainerView { width, ..self@ }),
    {
        let r = Container { width, ..self.duplicate() };
        proof {
            assert(r@ =~= (ContainerView { width, ..self@ }));
        }
        r
    }

    /// Bind a record's values into every placeholder below this container.
    pub fn instantiate(&self, section: &ItemRecord) -> (r: Container)
        ensures
            r@ == self@.spec_instantiate(section@),
        decreases self,
    {
        let mut kids: Vec<Layout> = Vec::new();
        let mut i: usize = 0;
        while i < self.elements.len()
            invariant
                i <= self.elements@.len(),
                kids@.len() == i,
                forall|j: int|
                    0 <= j < i ==> #[trigger] kids@[j]@ == layout_views(
                        self.elements@,
                    )[j].spec_instantiate(section@),
            decreases self.elements@.len() - i,
        {
            proof {
                assert(decreases_to!(self => self.elements));
                assert(decreases_to!(self.elements => self.elements@[i as int]));
            }
            kids.push(self.elements[i].instantiate(section));
            i = i + 1;
        }
        let r = Container {
            elements: kids,
            margin: self.margin,
            alignment: self.alignment,
            width: self.width,
        };
        proof {
            let target = self@.spec_instantiate(section@);
            assert forall|j: int| 0 <= j < r@.elements.len() implies r@.elements[j]
                == target.elements[j] by {
                assert(r@.elements == layout_views(r.elements@));
                assert(layout_views(r.elements@)[j] == r.elements@[j]@);
                assert(self@.elements == layout_views(self.elements@));
                assert(layout_views(self.elements@)[j] == self.elements@[j]@);
                assert(target.elements[j] == self@.elements[j].spec_instantiate(section@));
            }
            assert(r@.elements == layout_views(r.elements@));
            assert(self@.elements == layout_views(self.elements@));
            assert(r@.elements.len() == r.elements@.len());
            assert(target.elements.len() == self.elements@.len());
            assert(r@.elements =~= target.elements);
            assert(r@ =~= target);
        }
        r
    }

    /// Resolve every percentage width below this container against the
    /// reference width.
    pub fn scale_width(&self, reference: u32) -> (r: Container)
        requires
            self@.widths_ok(),
        ensures
            r@ == self@.spec_scale(reference),
        decreases self,
    {
        let mut kids: Vec<Layout> = Vec::new();
        let mut i: usize = 0;
        while i < self.elements.len()
            invariant
                i <= self.elements@.len(),
                kids@.len() == i,
                self@.widths_ok(),
                forall|j: int|
                    0 <= j < i ==> #[trigger] kids@[j]@ == layout_views(
                        self.elements@,
                    )[j].spec_scale(reference),
            decreases self.elements@.len() - i,
        {
            proof {
                assert(decreases_to!(self => self.elements));
                assert(decreases_to!(self.elements => self.elements@[i as int]));
                assert(self@.elements[i as int] == layout_views(self.elements@)[i as int]);
            }
            kids.push(self.elements[i].scale_width(reference));
            i = i + 1;
        }
        let r = Container {
            elements: kids,
            margin: self.margin,
            alignment: self.alignment,
            width: self.width.scale(reference),
        };
        proof {
            let target = self@.spec_scale(reference);
            assert forall|j: int| 0 <= j < r@.elements.len() implies r@.elements[j]
                == target.elements[j] by {
                assert(r@.elements == layout_views(r.elements@));
                assert(layout_views(r.elements@)[j] == r.elements@[j]@);
                assert(self@.elements == layout_views(self.elements@));
                assert(layout_views(self.elements@)[j] == self.elements@[j]@);
                assert(target.elements[j] == self@.elements[j].spec_scale(reference));
            }
            assert(r@.elements == layout_views(r.elements@));
            assert(self@.elements == layout_views(self.elements@));
            assert(r@.elements.len() == r.elements@.len());
            assert(target.elements.len() == self.elements@.len());
            assert(r@.elements =~= target.elements);
            assert(r@ =~= target);
        }
        r
    }

    /// Clamp this container's width to the incoming bound and pass the
    /// resolved bound on to every child.
    pub fn bound_width(&self, width: u32) -> (r: Container)
        requires
            self@.is_scaled(),
        ensures
            r@ == self@.spec_bound(width),
        decreases self,
    {
        let bound = if self.width.is_fixed() {
            let w = self.width.get_fixed_unchecked();
            if w <= width {
                w
            } else {
                width
            }
        } else {
            width
        };
        let mut kids: Vec<Layout> = Vec::new();
        let mut i: usize = 0;
        while i < self.elements.len()
            invariant
                i <= self.elements@.len(),
                kids@.len() == i,
                self@.is_scaled(),
                forall|j: int|
                    0 <= j < i ==> #[trigger] kids@[j]@ == layout_views(
                        self.elements@,
                    )[j].spec_bound(self@.spec_inner_bound(width)),
                bound == self@.spec_inner_bound(width),
            decreases self.elements@.len() - i,
        {
            proof {
                assert(decreases_to!(self => self.elements));
                assert(decreases_to!(self.elements => self.elements@[i as int]));
                assert(self@.elements[i as int] == layout_views(self.elements@)[i as int]);
            }
            kids.push(self.elements[i].bound_width(bound));
            i = i + 1;
        }
        let r = Container {
            elements: kids,
            margin: self.margin,
            alignment: self.alignment,
            width: Width::Fixed(bound),
        };
        proof {
            let target = self@.spec_bound(width);
            assert forall|j: int| 0 <= j < r@.elements.len() implies r@.elements[j]
                == target.elements[j] by {
                assert(r@.elements == layout_views(r.elements@));
                assert(layout_views(r.elements@)[j] == r.elements@[j]@);
                assert(self@.elements == layout_views(self.elements@));
                assert(layout_views(self.elements@)[j] == self.elements@[j]@);
                assert(target.elements[j] == self@.elements[j].spec_bound(self@.spec_inner_bound(width)));
            }
            assert(r@.elements == layout_views(r.elements@));
            assert(self@.elements == layout_views(self.elements@));
            assert(r@.elements.len() == r.elements@.len());
            assert(target.elements.len() == self.elements@.len());
            assert(r@.elements =~= target.elements);
            assert(r@ =~= target);
        }
        r
    }

    /// Attach measured text widths to every leaf below this container.
    pub fn fill_fonts(&self, font_dict: &FontDict) -> (r: Container)
        requires
            self@.fonts_ok(*font_dict),
            self@.fill_ready(),
        ensures
            r@ == self@.spec_fill_fonts(*font_dict),
        decreases self,
    {
        let mut kids: Vec<Layout> = Vec::new();
        let mut i: usize = 0;
        while i < self.elements.len()
            invariant
                i <= self.elements@.len(),
                kids@.len() == i,
                self@.fonts_ok(*font_dict),
                self@.fill_ready(),
                forall|j: int|
                    0 <= j < i ==> #[trigger] kids@[j]@ == layout_views(
                        self.elements@,
                    )[j].spec_fill_fonts(*font_dict),
            decreases self.elements@.len() - i,
        {
            proof {
                assert(decreases_to!(self => self.elements));
                assert(decreases_to!(self.elements => self.elements@[i as int]));
                assert(self@.elements[i as int] == layout_views(self.elements@)[i as int]);
            }
            kids.push(self.elements[i].fill_fonts(font_dict));
            i = i + 1;
        }
        let r = Container {
            elements: kids,
            margin: self.margin,
            alignment: self.alignment,
            width: self.width,
        };
        proof {
            let target = self@.spec_fill_fonts(*font_dict);
            assert forall|j: int| 0 <= j < r@.elements.len() implies r@.elements[j]
                == target.elements[j] by {
                assert(r@.elements == layout_views(r.elements@));
                assert(layout_views(r.elements@)[j] == r.elements@[j]@);
                assert(self@.elements == layout_views(self.elements@));
                assert(layout_views(self.elements@)[j] == self.elements@[j]@);
                assert(target.elements[j] == self@.elements[j].spec_fill_fonts(*font_dict));
            }
            assert(r@.elements == layout_views(r.elements@));
            assert(self@.elements == layout_views(self.elements@));
            assert(r@.elements.len() == r.elements@.len());
            assert(target.elements.len() == self.elements@.len());
            assert(r@.elements =~= target.elements);
            assert(r@ =~= target);
        }
        r
    }

    /// Wrap each child, then group the children into lines whose summed
    /// width fits this container's width: one container per line, each a
    /// copy of this container holding that line's children.
    pub fn break_lines(&self, font_dict: &FontDict) -> (r: Result<Vec<Container>, LayoutError>)
        requires
            self@.all_widths_fixed(),
            self@.is_filled(),
            self@.fonts_ok(*font_dict),
        ensures
            self@.frozen_ok() ==> (r matches Ok(v) && crate::layout::container_views(v@)
                == self@.spec_row_containers(*font_dict)),
            !self@.frozen_ok() ==> r == Err::<Vec<Container>, LayoutError>(
                LayoutError::FrozenRowOverflow,
            ),
        decreases self,
    {
        let ghost d = *font_dict;
        let ghost bk = self@.spec_break_children(d);
        let mut broken: Vec<Layout> = Vec::new();
        let mut i: usize = 0;
        proof {
            assert(self@.elements == layout_views(self.elements@));
        }
        while i < self.elements.len()
            invariant
                i <= self.elements@.len(),
                broken@.len() == i,
                d == *font_dict,
                self@.all_widths_fixed(),
                self@.is_filled(),
                self@.fonts_ok(d),
                bk == self@.spec_break_children(d),
                self@.elements == layout_views(self.elements@),
                forall|j: int| 0 <= j < i ==> (#[trigger] self@.elements[j]).frozen_ok(),
                forall|j: int| 0 <= j < i ==> #[trigger] broken@[j]@ == bk[j],
            decreases self.elements@.len() - i,
        {
            proof {
                assert(decreases_to!(self => self.elements));
                assert(decreases_to!(self.elements => self.elements@[i as int]));
                assert(self@.elements[i as int] == self.elements@[i as int]@);
                assert(bk[i as int] == self@.elements[i as int].spec_break(d));
            }
            match self.elements[i].break_lines(font_dict) {
                Ok(l) => {
                    broken.push(l);
                },
                Err(e) => {
                    proof {
                        assert(!self@.elements[i as int].frozen_ok());
                        assert(!self@.frozen_ok());
                    }
                    return Err(e);
                },
            }
            i = i + 1;
        }
        proof {
            assert(self@.frozen_ok());
            assert(bk.len() == broken@.len());
        }
        let limit = self.width.get_fixed_unchecked();
        let mut lines: Vec<Container> = Vec::new();
        let mut current: Vec<Layout> = Vec::new();
        let mut curw: u64 = 0;
        let ghost mut groups: Seq<Seq<LayoutView>> = Seq::empty();
        let mut k: usize = 0;
        proof {
            assert(bk.skip(0) =~= bk);
            assert(layout_views(current@) =~= Seq::<LayoutView>::empty());
            assert(groups + crate::layout::spec_row_lines(bk, limit, Seq::empty(), 0)
                =~= crate::layout::spec_row_lines(bk, limit, Seq::empty(), 0));
        }
        while k < broken.len()
            invariant
                k <= broken@.len(),
                d == *font_dict,
                broken@.len() == bk.len(),
                self@.all_widths_fixed(),
                self@.is_filled(),
                self@.elements == layout_views(self.elements@),
                bk == self@.spec_break_children(d),
                forall|j: int| 0 <= j < bk.len() ==> #[trigger] broken@[j]@ == bk[j],
                limit == self@.width.spec_units(),
                limit <= u32::MAX,
                curw < 0x1_0000_0000u64,
                crate::layout::spec_row_lines(bk, limit, Seq::empty(), 0) == groups
                    + crate::layout::spec_row_lines(
                    bk.skip(k as int),
                    limit,
                    layout_views(current@),
                    curw as int,
                ),
                lines@.len() == groups.len(),
                crate::layout::container_views(lines@) == Seq::new(
                    groups.len(),
                    |g: int|
                        if 0 <= g < groups.len() {
                            ContainerView { elements: groups[g], ..self@ }
                        } else {
                            self@
                        },
                ),
            decreases broken@.len() - k,
        {
            let ghost rem = bk.skip(k as int);
            proof {
                assert(broken@[k as int]@ == bk[k as int]);
                assert(rem.first() == bk[k as int]);
                assert(rem.drop_first() =~= bk.skip(k as int + 1));
                assert(self@.elements[k as int] == self.elements@[k as int]@);
                crate::layout::lemma_break_preserves(self@.elements[k as int], d);
                crate::layout::lemma_fixed_width(bk[k as int]);
            }
            let w = broken[k].width().get_fixed_unchecked();
            let ghost cv = layout_views(current@);
            if curw + (w as u64) > (limit as u64) {
                if current.len() > 0 {
                    let line = self.with_elements(current);
                    proof {
                        assert(cv.len() > 0);
                        assert(crate::layout::spec_row_lines(rem, limit, cv, curw as int)
                            == seq![cv] + crate::layout::spec_row_lines(
                            rem.drop_first(),
                            limit,
                            seq![rem.first()],
                            rem.first().spec_width().spec_units() as int,
                        ));
                        let ng = groups.push(cv);
                        assert(line@ == (ContainerView { elements: cv, ..self@ }));
                        assert(crate::layout::container_views(lines@.push(line))
                            =~= crate::layout::container_views(lines@) + seq![line@]);
                        assert(crate::layout::container_views(lines@) + seq![line@] =~= Seq::new(
                            ng.len(),
                            |g: int|
                                if 0 <= g < ng.len() {
                                    ContainerView { elements: ng[g], ..self@ }
                                } else {
                                    self@
                                },
                        ));
                        assert(groups + (seq![cv] + crate::layout::spec_row_lines(
                            rem.drop_first(),
                            limit,
                            seq![rem.first()],
                            rem.first().spec_width().spec_units() as int,
                        )) =~= ng + crate::layout::spec_row_lines(
                            rem.drop_first(),
                            limit,
                            seq![rem.first()],
                            rem.first().spec_width().spec_units() as int,
                        ));
                    }
                    lines.push(line);
                    proof {
                        groups = groups.push(cv);
                    }
                    current = Vec::new();
                } else {
                    proof {
                        assert(cv.len() == 0);
                        assert(crate::layout::spec_row_lines(rem, limit, cv, curw as int)
                            == Seq::<Seq<LayoutView>>::empty() + crate::layout::spec_row_lines(
                            rem.drop_first(),
                            limit,
                            seq![rem.first()],
                            rem.first().spec_width().spec_units() as int,
                        ));
                        assert(Seq::<Seq<LayoutView>>::empty() + crate::layout::spec_row_lines(
                            rem.drop_first(),
                            limit,
                            seq![rem.first()],
                            rem.first().spec_width().spec_units() as int,
                        ) =~= crate::layout::spec_row_lines(
                            rem.drop_first(),
                            limit,
                            seq![rem.first()],
                            rem.first().spec_width().spec_units() as int,
                        ));
                    }
                    current = Vec::new();
                }
                current.push(broken[k].duplicate());
                curw = w as u64;
                proof {
                    assert(layout_views(current@) =~= seq![bk[k as int]]);
                }
            } else {
                current.push(broken[k].duplicate());
                curw = curw + (w as u64);
                proof {
                    assert(layout_views(current@) =~= cv.push(bk[k as int]));
                }
            }
            k = k + 1;
        }
        proof {
            assert(bk.skip(k as int) =~= Seq::<LayoutView>::empty());
        }
        if current.len() > 0 {
            let ghost cv = layout_views(current@);
            let line = self.with_elements(current);
            proof {
                assert(cv.len() > 0);
                assert(crate::layout::spec_row_lines(
                    Seq::<LayoutView>::empty(),
                    limit,
                    cv,
                    curw as int,
                ) == seq![cv]);
                let ng = groups.push(cv);
                assert(line@ == (ContainerView { elements: cv, ..self@ }));
                assert(crate::layout::container_views(lines@.push(line))
                    =~= crate::layout::container_views(lines@) + seq![line@]);
                assert(crate::layout::container_views(lines@) + seq![line@] =~= Seq::new(
                    ng.len(),
                    |g: int|
                        if 0 <= g < ng.len() {
                            ContainerView { elements: ng[g], ..self@ }
                        } else {
                            self@
                        },
                ));
                assert(groups + seq![cv] =~= ng);
            }
            lines.push(line);
            proof {
                groups = groups.push(cv);
            }
        } else {
            proof {
                assert(layout_views(current@) =~= Seq::<LayoutView>::empty());
                assert(crate::layout::spec_row_lines(
                    Seq::<LayoutView>::empty(),
                    limit,
                    layout_views(current@),
                    curw as int,
                ) == Seq::<Seq<LayoutView>>::empty());
                assert(groups + Seq::<Seq<LayoutView>>::empty() =~= groups);
            }
        }
        proof {
            assert(crate::layout::spec_row_lines(bk, limit, Seq::empty(), 0) == groups);
            assert(crate::layout::container_views(lines@) =~= self@.spec_row_containers(d));
        }
        Ok(lines)
    }

    /// The summed width of the children, each of which must be resolved.
    pub fn elements_width(&self) -> (r: u32)
        requires
            self@.all_widths_fixed(),
            crate::layout::seq_width_sum(self@.elements) <= u32::MAX,
        ensures
            r == crate::layout::seq_width_sum(self@.elements),
    {
        let ghost kids = self@.elements;
        let mut total: u32 = 0;
        let mut i: usize = 0;
        proof {
            crate::layout::lemma_width_sum_prefix(kids, 0);
        }
        while i < self.elements.len()
            invariant
                i <= self.elements@.len(),
                kids == self@.elements,
                self@.all_widths_fixed(),
                crate::layout::seq_width_sum(kids) <= u32::MAX,
                total == crate::layout::seq_width_sum(kids.take(i as int)),
            decreases self.elements@.len() - i,
        {
            proof {
                assert(self@.elements[i as int] == layout_views(self.elements@)[i as int]);
                assert(kids[i as int].all_widths_fixed());
                crate::layout::lemma_fixed_width(kids[i as int]);
                crate::layout::lemma_width_sum_take_step(kids, i as int);
                crate::layout::lemma_width_sum_take_bound(kids, i as int + 1);
            }
            let w = self.elements[i].width().get_fixed_unchecked();
            total = total + w;
            i = i + 1;
        }
        proof {
            assert(self@.elements == layout_views(self.elements@));
            assert(kids.len() == self.elements@.len());
            assert(kids.take(i as int) =~= kids);
        }
        total
    }
}

} // verus!
