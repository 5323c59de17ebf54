//! The layout tree and its normalization pipeline.
//!
//! A `Layout` is a template when it still holds `Ref` placeholders and an
//! instance once every placeholder is bound.  The pipeline runs
//! instantiate, scale, bound, fill-fonts and break-lines, each a pure
//! tree-to-tree transform whose meaning is given by a spec function over the
//! tree's mathematical model.

use vstd::prelude::*;

use crate::alignment::Alignment;
use crate::container::Container;
use crate::document::DocumentDefinition;
use crate::point::Point;
use crate::spatial_box::SpatialBox;
use crate::element::{Element, ElementView, element_views};
use crate::error::LayoutError;
use crate::font::{font_available, FontDict, FontRef, FontView};
use crate::margin::Margin;
use crate::resume_data::{spec_lookup, ItemContent, ItemContentView, ItemRecord};
use crate::width::Width;

verus! {

/// A node of the layout tree: a vertical stack, a row that must not wrap, a
/// row that may wrap, a resolved text leaf, or an unresolved placeholder
/// leaf whose `item` is a field name.
#[derive(Debug)]
pub enum Layout {
    Stack(Container),
    FrozenRow(Container),
    FlexRow(Container),
    Text(Element),
    Ref(Element),
}

/// The mathematical model of a container.
#[verifier::ext_equal]
pub struct ContainerView {
    pub elements: Seq<LayoutView>,
    pub margin: Margin,
    pub alignment: Alignment,
    pub width: Width,
}

/// The mathematical model of a layout tree.
#[verifier::ext_equal]
pub enum LayoutView {
    Stack(ContainerView),
    FrozenRow(ContainerView),
    FlexRow(ContainerView),
    Text(ElementView),
    Ref(ElementView),
}

/// The model of the container an unmatched placeholder collapses to: no
/// children and zero width.
pub open spec fn spec_empty_container() -> ContainerView {
    ContainerView {
        elements: Seq::empty(),
        margin: Margin { top: 0, bottom: 0, left: 0, right: 0 },
        alignment: Alignment::Left,
        width: Width::Fixed(0),
    }
}

/// The models of a sequence of layouts.
pub open spec fn layout_views(s: Seq<Layout>) -> Seq<LayoutView>
    decreases s,
{
    Seq::new(
        s.len(),
        |i: int|
            if 0 <= i < s.len() {
                s[i]@
            } else {
                LayoutView::Stack(spec_empty_container())
            },
    )
}

impl View for Layout {
    type V = LayoutView;

    open spec fn view(&self) -> LayoutView
        decreases self,
    {
        match self {
            Layout::Stack(c) => LayoutView::Stack(c@),
            Layout::FrozenRow(c) => LayoutView::FrozenRow(c@),
            Layout::FlexRow(c) => LayoutView::FlexRow(c@),
            Layout::Text(e) => LayoutView::Text(e@),
            Layout::Ref(e) => LayoutView::Ref(e@),
        }
    }
}

impl LayoutView {
    /// This node's own width constraint.
    pub open spec fn spec_width(self) -> Width {
        match self {
            LayoutView::Stack(c) | LayoutView::FrozenRow(c) | LayoutView::FlexRow(c) => c.width,
            LayoutView::Text(e) | LayoutView::Ref(e) => e.width,
        }
    }

    /// This node's own margin.
    pub open spec fn spec_margin(self) -> Margin {
        match self {
            LayoutView::Stack(c) | LayoutView::FrozenRow(c) | LayoutView::FlexRow(c) => c.margin,
            LayoutView::Text(e) | LayoutView::Ref(e) => e.margin,
        }
    }

    /// This node's own alignment.
    pub open spec fn spec_alignment(self) -> Alignment {
        match self {
            LayoutView::Stack(c) | LayoutView::FrozenRow(c) | LayoutView::FlexRow(c) => c.alignment,
            LayoutView::Text(e) | LayoutView::Ref(e) => e.alignment,
        }
    }

    /// Whether no placeholder leaf remains anywhere in the subtree.
    pub open spec fn is_instantiated(self) -> bool
        decreases self,
    {
        match self {
            LayoutView::Stack(c) | LayoutView::FrozenRow(c) | LayoutView::FlexRow(c) =>
                c.is_instantiated(),
            LayoutView::Text(_) => true,
            LayoutView::Ref(_) => false,
        }
    }

    /// Whether every percentage width in the subtree is between 0 and 100.
    pub open spec fn widths_ok(self) -> bool
        decreases self,
    {
        match self {
            LayoutView::Stack(c) | LayoutView::FrozenRow(c) | LayoutView::FlexRow(c) =>
                c.widths_ok(),
            LayoutView::Text(e) | LayoutView::Ref(e) => e.width matches Width::Percentage(p)
                ==> p <= 100,
        }
    }

    /// Whether no percentage width remains anywhere in the subtree.
    pub open spec fn is_scaled(self) -> bool
        decreases self,
    {
        match self {
            LayoutView::Stack(c) | LayoutView::FrozenRow(c) | LayoutView::FlexRow(c) =>
                c.is_scaled(),
            LayoutView::Text(e) | LayoutView::Ref(e) => !(e.width is Percentage),
        }
    }

    /// Whether every declared width in the subtree is a resolved `Fixed`.
    pub open spec fn all_widths_fixed(self) -> bool
        decreases self,
    {
        match self {
            LayoutView::Stack(c) | LayoutView::FrozenRow(c) | LayoutView::FlexRow(c) =>
                c.all_widths_fixed(),
            LayoutView::Text(e) | LayoutView::Ref(e) => e.width is Fixed,
        }
    }

    /// Whether every text leaf carries a measured text width.
    pub open spec fn is_filled(self) -> bool
        decreases self,
    {
        match self {
            LayoutView::Stack(c) | LayoutView::FrozenRow(c) | LayoutView::FlexRow(c) =>
                c.is_filled(),
            LayoutView::Text(e) => e.text_width is Fixed,
            LayoutView::Ref(_) => true,
        }
    }

    /// Whether every leaf's effective width is resolved: the declared widths
    /// are all `Fixed` and every text leaf carries a measured text width.
    /// Required before geometry computation.
    pub open spec fn is_bounded(self) -> bool {
        self.all_widths_fixed() && self.is_filled()
    }

    /// Whether no frozen row remains anywhere in the subtree.
    pub open spec fn frozen_free(self) -> bool
        decreases self,
    {
        match self {
            LayoutView::Stack(c) | LayoutView::FlexRow(c) => c.frozen_free(),
            LayoutView::FrozenRow(_) => false,
            LayoutView::Text(_) | LayoutView::Ref(_) => true,
        }
    }

    /// Whether measuring is possible for every font referenced in the
    /// subtree: the dictionary holds each referenced face or the fallback.
    pub open spec fn fonts_ok(self, d: FontDict) -> bool
        decreases self,
    {
        match self {
            LayoutView::Stack(c) | LayoutView::FrozenRow(c) | LayoutView::FlexRow(c) =>
                c.fonts_ok(d),
            LayoutView::Text(e) | LayoutView::Ref(e) => font_available(d, e.font),
        }
    }

    /// Whether every fill-marked leaf has a resolved width, as the bound
    /// stage guarantees: font-filling needs it.
    pub open spec fn fill_ready(self) -> bool
        decreases self,
    {
        match self {
            LayoutView::Stack(c) | LayoutView::FrozenRow(c) | LayoutView::FlexRow(c) =>
                c.fill_ready(),
            LayoutView::Text(e) | LayoutView::Ref(e) => e.is_fill ==> !(e.width is Fill),
        }
    }

    /// Whether every frozen row's children fit its declared width: the sum
    /// of child widths is at most the row's width.
    pub open spec fn frozen_ok(self) -> bool
        decreases self,
    {
        match self {
            LayoutView::Stack(c) | LayoutView::FlexRow(c) => c.frozen_ok(),
            LayoutView::FrozenRow(c) => seq_width_sum(c.elements) <= c.width.spec_units()
                && c.frozen_ok(),
            LayoutView::Text(_) | LayoutView::Ref(_) => true,
        }
    }

    /// The fonts referenced by the subtree's leaves, in depth-first order.
    pub open spec fn spec_fonts(self) -> Seq<FontView>
        decreases self,
    {
        match self {
            LayoutView::Stack(c) | LayoutView::FrozenRow(c) | LayoutView::FlexRow(c) => seq_fonts(
                c.elements,
            ),
            LayoutView::Text(e) | LayoutView::Ref(e) => seq![e.font],
        }
    }
}

/// The fonts referenced by a sequence of subtrees, in order.
pub open spec fn seq_fonts(s: Seq<LayoutView>) -> Seq<FontView>
    decreases s,
{
    if s.len() == 0 {
        Seq::empty()
    } else {
        s.first().spec_fonts() + seq_fonts(s.drop_first())
    }
}

/// A subtree whose widths are all resolved has a `Fixed` own width.
pub proof fn lemma_fixed_width(l: LayoutView)
    requires
        l.all_widths_fixed(),
    ensures
        l.spec_width() is Fixed,
{
}

/// The summed declared widths of a sequence of subtrees.
pub open spec fn seq_width_sum(s: Seq<LayoutView>) -> int
    decreases s,
{
    if s.len() == 0 {
        0
    } else {
        s.first().spec_width().spec_units() + seq_width_sum(s.drop_first())
    }
}

/// The sum over a prefix one longer extends the prefix sum by one width.
pub proof fn lemma_width_sum_take_step(s: Seq<LayoutView>, i: int)
    requires
        0 <= i < s.len(),
    ensures
        seq_width_sum(s.take(i + 1)) == seq_width_sum(s.take(i)) + s[i].spec_width().spec_units(),
    decreases i,
{
    if i == 0 {
        assert(s.take(1).drop_first() =~= Seq::<LayoutView>::empty());
        assert(s.take(0) =~= Seq::<LayoutView>::empty());
        assert(s.take(1).first() == s[0]);
    } else {
        lemma_width_sum_take_step(s.drop_first(), i - 1);
        assert(s.take(i + 1).drop_first() =~= s.drop_first().take(i));
        assert(s.take(i).drop_first() =~= s.drop_first().take(i - 1));
        assert(s.take(i + 1).first() == s.first());
        assert(s.take(i).first() == s.first());
        assert(s.drop_first()[i - 1] == s[i]);
    }
}

/// Prefix sums never exceed the total sum.
pub proof fn lemma_width_sum_take_bound(s: Seq<LayoutView>, i: int)
    requires
        0 <= i <= s.len(),
    ensures
        seq_width_sum(s.take(i)) <= seq_width_sum(s),
    decreases s.len() - i,
{
    if i == s.len() {
        assert(s.take(i) =~= s);
    } else {
        lemma_width_sum_take_step(s, i);
        lemma_width_sum_take_bound(s, i + 1);
    }
}

/// The empty prefix sums to nothing.
pub proof fn lemma_width_sum_prefix(s: Seq<LayoutView>, i: int)
    requires
        i == 0,
    ensures
        seq_width_sum(s.take(i)) == 0,
{
    assert(s.take(0) =~= Seq::<LayoutView>::empty());
}

impl ContainerView {
    /// Whether no placeholder leaf remains below this container.
    pub open spec fn is_instantiated(self) -> bool
        decreases self,
    {
        forall|i: int|
            0 <= i < self.elements.len() ==> (#[trigger] self.elements[i]).is_instantiated()
    }

    /// Whether every percentage width in the container is between 0 and 100.
    pub open spec fn widths_ok(self) -> bool
        decreases self,
    {
        (self.width matches Width::Percentage(p) ==> p <= 100) && forall|i: int|
            0 <= i < self.elements.len() ==> (#[trigger] self.elements[i]).widths_ok()
    }

    /// Whether no percentage width remains in the container.
    pub open spec fn is_scaled(self) -> bool
        decreases self,
    {
        !(self.width is Percentage) && forall|i: int|
            0 <= i < self.elements.len() ==> (#[trigger] self.elements[i]).is_scaled()
    }

    /// Whether every declared width in the container is a resolved `Fixed`.
    pub open spec fn all_widths_fixed(self) -> bool
        decreases self,
    {
        self.width is Fixed && forall|i: int|
            0 <= i < self.elements.len() ==> (#[trigger] self.elements[i]).all_widths_fixed()
    }

    /// Whether every text leaf below carries a measured text width.
    pub open spec fn is_filled(self) -> bool
        decreases self,
    {
        forall|i: int| 0 <= i < self.elements.len() ==> (#[trigger] self.elements[i]).is_filled()
    }

    /// Whether no frozen row remains below this container.
    pub open spec fn frozen_free(self) -> bool
        decreases self,
    {
        forall|i: int|
            0 <= i < self.elements.len() ==> (#[trigger] self.elements[i]).frozen_free()
    }

    /// Whether every frozen row below has children that fit its width.
    pub open spec fn frozen_ok(self) -> bool
        decreases self,
    {
        forall|i: int| 0 <= i < self.elements.len() ==> (#[trigger] self.elements[i]).frozen_ok()
    }

    /// Whether measuring is possible for every font referenced below.
    pub open spec fn fonts_ok(self, d: FontDict) -> bool
        decreases self,
    {
        forall|i: int| 0 <= i < self.elements.len() ==> (#[trigger] self.elements[i]).fonts_ok(d)
    }

    /// Whether every fill-marked leaf below has a resolved width.
    pub open spec fn fill_ready(self) -> bool
        decreases self,
    {
        forall|i: int| 0 <= i < self.elements.len() ==> (#[trigger] self.elements[i]).fill_ready()
    }

    /// What instantiation does to a container: each child is instantiated.
    pub open spec fn spec_instantiate(self, rec: Seq<(Seq<char>, ItemContentView)>) -> ContainerView
        decreases self,
    {
        ContainerView {
            elements: Seq::new(
                self.elements.len(),
                |i: int|
                    if 0 <= i < self.elements.len() {
                        self.elements[i].spec_instantiate(rec)
                    } else {
                        LayoutView::Stack(spec_empty_container())
                    },
            ),
            ..self
        }
    }

    /// What scaling does to a container: its own width is resolved and each
    /// child is scaled.
    pub open spec fn spec_scale(self, reference: u32) -> ContainerView
        decreases self,
    {
        ContainerView {
            elements: Seq::new(
                self.elements.len(),
                |i: int|
                    if 0 <= i < self.elements.len() {
                        self.elements[i].spec_scale(reference)
                    } else {
                        LayoutView::Stack(spec_empty_container())
                    },
            ),
            width: self.width.spec_scale(reference),
            ..self
        }
    }

    /// The bound a container resolves for itself from an incoming bound: its
    /// own concrete width when that is within the bound, else the bound.
    pub open spec fn spec_inner_bound(self, width: u32) -> u32 {
        if !(self.width is Fill) && self.width.spec_units() <= width {
            self.width.spec_units()
        } else {
            width
        }
    }

    /// What bounding does to a container: it keeps or clamps its own width,
    /// and passes the resolved bound to each child individually.
    pub open spec fn spec_bound(self, width: u32) -> ContainerView
        decreases self,
    {
        let bound = self.spec_inner_bound(width);
        ContainerView {
            elements: Seq::new(
                self.elements.len(),
                |i: int|
                    if 0 <= i < self.elements.len() {
                        self.elements[i].spec_bound(bound)
                    } else {
                        LayoutView::Stack(spec_empty_container())
                    },
            ),
            width: Width::Fixed(bound),
            ..self
        }
    }

    /// What font-filling does to a container: each child is filled.
    pub open spec fn spec_fill_fonts(self, d: FontDict) -> ContainerView
        decreases self,
    {
        ContainerView {
            elements: Seq::new(
                self.elements.len(),
                |i: int|
                    if 0 <= i < self.elements.len() {
                        self.elements[i].spec_fill_fonts(d)
                    } else {
                        LayoutView::Stack(spec_empty_container())
                    },
            ),
            ..self
        }
    }
}

/// What instantiating a placeholder leaf yields: the bound text leaf when
/// the record has the field (a link value also attaches its target), else
/// the empty container.
pub open spec fn spec_instantiate_ref(
    e: ElementView,
    rec: Seq<(Seq<char>, ItemContentView)>,
) -> LayoutView {
    match spec_lookup(rec, e.item) {
        Some(content) => LayoutView::Text(
            ElementView {
                item: content.spec_as_text(),
                url: match content {
                    ItemContentView::Link { url, text: _ } => Some(url),
                    _ => e.url,
                },
                ..e
            },
        ),
        None => LayoutView::Stack(spec_empty_container()),
    }
}

impl LayoutView {
    /// What instantiation does to a tree: containers map it over their
    /// children, text passes through, and each placeholder is looked up in
    /// the record.
    pub open spec fn spec_instantiate(self, rec: Seq<(Seq<char>, ItemContentView)>) -> LayoutView
        decreases self,
    {
        match self {
            LayoutView::Stack(c) => LayoutView::Stack(c.spec_instantiate(rec)),
            LayoutView::FrozenRow(c) => LayoutView::FrozenRow(c.spec_instantiate(rec)),
            LayoutView::FlexRow(c) => LayoutView::FlexRow(c.spec_instantiate(rec)),
            LayoutView::Text(e) => LayoutView::Text(e),
            LayoutView::Ref(e) => spec_instantiate_ref(e, rec),
        }
    }

    /// What scaling does to a tree: every percentage width is resolved
    /// against the reference width.
    pub open spec fn spec_scale(self, reference: u32) -> LayoutView
        decreases self,
    {
        match self {
            LayoutView::Stack(c) => LayoutView::Stack(c.spec_scale(reference)),
            LayoutView::FrozenRow(c) => LayoutView::FrozenRow(c.spec_scale(reference)),
            LayoutView::FlexRow(c) => LayoutView::FlexRow(c.spec_scale(reference)),
            LayoutView::Text(e) => LayoutView::Text(e.spec_scale(reference)),
            LayoutView::Ref(e) => LayoutView::Ref(e.spec_scale(reference)),
        }
    }

    /// The bound a node resolves for itself from an incoming bound.
    pub open spec fn spec_own_bound(self, width: u32) -> u32 {
        match self.spec_width() {
            Width::Fill => width,
            w => if w.spec_units() <= width {
                w.spec_units()
            } else {
                width
            },
        }
    }

    /// What bounding does to a tree: every node's width becomes `Fixed`,
    /// clamped to the incoming bound, and the resolved bound is passed
    /// inward.
    pub open spec fn spec_bound(self, width: u32) -> LayoutView
        decreases self,
    {
        let bound = self.spec_own_bound(width);
        match self {
            LayoutView::Stack(c) => LayoutView::Stack(c.spec_bound(bound)),
            LayoutView::FrozenRow(c) => LayoutView::FrozenRow(c.spec_bound(bound)),
            LayoutView::FlexRow(c) => LayoutView::FlexRow(c.spec_bound(bound)),
            LayoutView::Text(e) => LayoutView::Text(e.spec_bound(bound)),
            LayoutView::Ref(e) => LayoutView::Ref(e.spec_bound(bound)),
        }
    }

    /// What font-filling does to a tree: every text leaf gets its measured
    /// text width attached.
    pub open spec fn spec_fill_fonts(self, d: FontDict) -> LayoutView
        decreases self,
    {
        match self {
            LayoutView::Stack(c) => LayoutView::Stack(c.spec_fill_fonts(d)),
            LayoutView::FrozenRow(c) => LayoutView::FrozenRow(c.spec_fill_fonts(d)),
            LayoutView::FlexRow(c) => LayoutView::FlexRow(c.spec_fill_fonts(d)),
            LayoutView::Text(e) => LayoutView::Text(e.spec_fill_fonts(d)),
            LayoutView::Ref(e) => LayoutView::Ref(e.spec_fill_fonts(d)),
        }
    }
}

impl Layout {
    pub fn new_stack(container: Container) -> (r: Layout)
        ensures
            r@ == LayoutView::Stack(container@),
    {
        Layout::Stack(container)
    }

    pub fn new_frozen_row(container: Container) -> (r: Layout)
        ensures
            r@ == LayoutView::FrozenRow(container@),
    {
        Layout::FrozenRow(container)
    }

    pub fn new_flex_row(container: Container) -> (r: Layout)
        ensures
            r@ == LayoutView::FlexRow(container@),
    {
        Layout::FlexRow(container)
    }

    pub fn new_text(element: Element) -> (r: Layout)
        ensures
            r@ == LayoutView::Text(element@),
    {
        Layout::Text(element)
    }

    pub fn new_ref(element: Element) -> (r: Layout)
        ensures
            r@ == LayoutView::Ref(element@),
    {
        Layout::Ref(element)
    }

    /// A deep copy of this tree, with the same model.
    pub fn duplicate(&self) -> (r: Layout)
        ensures
            r@ == self@,
        decreases self,
    {
        match self {
            Layout::Stack(c) => Layout::Stack(c.duplicate()),
            Layout::FrozenRow(c) => Layout::FrozenRow(c.duplicate()),
            Layout::FlexRow(c) => Layout::FlexRow(c.duplicate()),
            Layout::Text(e) => Layout::Text(e.duplicate()),
            Layout::Ref(e) => Layout::Ref(e.duplicate()),
        }
    }

    /// The kind of this node, as text.
    pub fn type_(&self) -> (r: &'static str)
        ensures
            self@ is Stack ==> r@ == "stack"@,
            self@ is FrozenRow ==> r@ == "frozen_row"@,
            self@ is FlexRow ==> r@ == "flex_row"@,
            self@ is Text ==> r@ == "text"@,
            self@ is Ref ==> r@ == "ref"@,
    {
        match self {
            Layout::Stack(_) => "stack",
            Layout::FrozenRow(_) => "frozen_row",
            Layout::FlexRow(_) => "flex_row",
            Layout::Text(_) => "text",
            Layout::Ref(_) => "ref",
        }
    }

    /// This node's own width constraint.
    pub fn width(&self) -> (w: Width)
        ensures
            w == self@.spec_width(),
    {
        match self {
            Layout::Stack(c) | Layout::FrozenRow(c) | Layout::FlexRow(c) => c.width,
            Layout::Text(e) | Layout::Ref(e) => e.width,
        }
    }

    /// This node's own margin.
    pub fn margin(&self) -> (m: Margin)
        ensures
            m == self@.spec_margin(),
    {
        match self {
            Layout::Stack(c) | Layout::FrozenRow(c) | Layout::FlexRow(c) => c.margin,
            Layout::Text(e) | Layout::Ref(e) => e.margin,
        }
    }

    /// This node's own alignment.
    pub fn alignment(&self) -> (a: Alignment)
        ensures
            a == self@.spec_alignment(),
    {
        match self {
            Layout::Stack(c) | Layout::FrozenRow(c) | Layout::FlexRow(c) => c.alignment,
            Layout::Text(e) | Layout::Ref(e) => e.alignment,
        }
    }

    /// The same tree with this node's margin replaced.
    pub fn with_margin(&self, margin: Margin) -> (r: Layout)
        ensures
            r@ == match self@ {
                LayoutView::Stack(c) => LayoutView::Stack(ContainerView { margin, ..c }),
                LayoutView::FrozenRow(c) => LayoutView::FrozenRow(ContainerView { margin, ..c }),
                LayoutView::FlexRow(c) => LayoutView::FlexRow(ContainerView { margin, ..c }),
                LayoutView::Text(e) => LayoutView::Text(ElementView { margin, ..e }),
                LayoutView::Ref(e) => LayoutView::Ref(ElementView { margin, ..e }),
            },
    {
        match self {
            Layout::Stack(c) => Layout::Stack(c.with_margin(margin)),
            Layout::FrozenRow(c) => Layout::FrozenRow(c.with_margin(margin)),
            Layout::FlexRow(c) => Layout::FlexRow(c.with_margin(margin)),
            Layout::Text(e) => Layout::Text(e.with_margin(margin)),
            Layout::Ref(e) => Layout::Ref(e.with_margin(margin)),
        }
    }

    /// The same tree with this node's alignment replaced.
    pub fn with_alignment(&self, alignment: Alignment) -> (r: Layout)
        ensures
            r@ == match self@ {
                LayoutView::Stack(c) => LayoutView::Stack(ContainerView { alignment, ..c }),
                LayoutView::FrozenRow(c) => LayoutView::FrozenRow(
                    ContainerView { alignment, ..c },
                ),
                LayoutView::FlexRow(c) => LayoutView::FlexRow(ContainerView { alignment, ..c }),
                LayoutView::Text(e) => LayoutView::Text(ElementView { alignment, ..e }),
                LayoutView::Ref(e) => LayoutView::Ref(ElementView { alignment, ..e }),
            },
    {
        match self {
            Layout::Stack(c) => Layout::Stack(c.with_alignment(alignment)),
            Layout::FrozenRow(c) => Layout::FrozenRow(c.with_alignment(alignment)),
            Layout::FlexRow(c) => Layout::FlexRow(c.with_alignment(alignment)),
            Layout::Text(e) => Layout::Text(e.with_alignment(alignment)),
            Layout::Ref(e) => Layout::Ref(e.with_alignment(alignment)),
        }
    }

    /// The fonts referenced by this subtree's leaves, appended to `out` in
    /// depth-first order.
    fn fonts_into(&self, out: &mut Vec<FontRef>)
        ensures
            font_views(final(out)@) == font_views(old(out)@) + self@.spec_fonts(),
        decreases self,
    {
        match self {
            Layout::Stack(c) | Layout::FrozenRow(c) | Layout::FlexRow(c) => {
                let ghost kids = c@.elements;
                let mut i: usize = 0;
                proof {
                    assert(c@.elements == layout_views(c.elements@));
                    assert(kids.len() == c.elements@.len());
                    assert(kids.skip(0) =~= kids);
                    assert(self@.spec_fonts() == seq_fonts(kids));
                    assert(font_views(out@) + seq_fonts(kids) =~= font_views(out@)
                        + self@.spec_fonts());
                }
                #[verifier::loop_isolation(false)]
                while i < c.elements.len()
                    invariant
                        i <= c.elements@.len(),
                        font_views(out@) + seq_fonts(kids.skip(i as int)) == font_views(
                            old(out)@,
                        ) + self@.spec_fonts(),
                    decreases c.elements@.len() - i,
                {
                    proof {
                        assert(decreases_to!(c => c.elements));
                        assert(decreases_to!(c.elements => c.elements@[i as int]));
                        assert(c@.elements == layout_views(c.elements@));
                        assert(kids.skip(i as int).first() == kids[i as int]);
                        assert(kids[i as int] == c.elements@[i as int]@);
                        assert(kids.skip(i as int).drop_first() =~= kids.skip(i as int + 1));
                        assert(font_views(out@) + (c.elements@[i as int]@.spec_fonts() + seq_fonts(
                            kids.skip(i as int + 1),
                        )) =~= (font_views(out@) + c.elements@[i as int]@.spec_fonts())
                            + seq_fonts(kids.skip(i as int + 1)));
                    }
                    c.elements[i].fonts_into(out);
                    i = i + 1;
                }
                proof {
                    assert(kids.skip(i as int) =~= Seq::<LayoutView>::empty());
                    assert(font_views(out@) + Seq::<FontView>::empty() =~= font_views(out@));
                }
            },
            Layout::Text(e) | Layout::Ref(e) => {
                let ghost before = out@;
                out.push(e.font.duplicate());
                proof {
                    assert(font_views(out@) =~= font_views(before) + self@.spec_fonts());
                }
            },
        }
    }

    /// The fonts referenced by this subtree's leaves, in depth-first order.
    pub fn fonts(&self) -> (r: Vec<FontRef>)
        ensures
            font_views(r@) == self@.spec_fonts(),
    {
        let mut out: Vec<FontRef> = Vec::new();
        proof {
            assert(font_views(Seq::<FontRef>::empty()) =~= Seq::<FontView>::empty());
        }
        self.fonts_into(&mut out);
        proof {
            assert(Seq::<FontView>::empty() + self@.spec_fonts() =~= self@.spec_fonts());
        }
        out
    }

    /// Whether no placeholder leaf remains anywhere in the subtree.
    pub fn is_instantiated(&self) -> (r: bool)
        ensures
            r == self@.is_instantiated(),
        decreases self,
    {
        match self {
            Layout::Stack(c) | Layout::FrozenRow(c) | Layout::FlexRow(c) => {
                let ghost kids = c@.elements;
                let mut i: usize = 0;
                proof {
                    assert(c@.elements == layout_views(c.elements@));
                }
                #[verifier::loop_isolation(false)]
                while i < c.elements.len()
                    invariant
                        i <= c.elements@.len(),
                        forall|j: int| 0 <= j < i ==> (#[trigger] kids[j]).is_instantiated(),
                    decreases c.elements@.len() - i,
                {
                    proof {
                        assert(decreases_to!(c => c.elements));
                        assert(decreases_to!(c.elements => c.elements@[i as int]));
                        assert(c@.elements == layout_views(c.elements@));
                        assert(kids[i as int] == c.elements@[i as int]@);
                    }
                    if !c.elements[i].is_instantiated() {
                        proof {
                            assert(!(kids[i as int]).is_instantiated());
                            assert(!c@.is_instantiated());
                        }
                        return false;
                    }
                    i = i + 1;
                }
                proof {
                    assert(self@.is_instantiated() == c@.is_instantiated());
                }
                true
            },
            Layout::Text(_) => true,
            Layout::Ref(_) => false,
        }
    }

    /// Bind a record's values into every placeholder below this node.
    pub fn instantiate(&self, section: &ItemRecord) -> (r: Layout)
        ensures
            r@ == self@.spec_instantiate(section@),
        decreases self,
    {
        match self {
            Layout::Stack(c) => Layout::Stack(c.instantiate(section)),
            Layout::FrozenRow(c) => Layout::FrozenRow(c.instantiate(section)),
            Layout::FlexRow(c) => Layout::FlexRow(c.instantiate(section)),
            Layout::Text(e) => Layout::Text(e.duplicate()),
            Layout::Ref(e) => Layout::instantiate_ref_element(e.duplicate(), section),
        }
    }

    /// Instantiate one placeholder leaf: the bound text leaf when the record
    /// has the field, else the empty container.
    pub fn instantiate_ref_element(element: Element, section: &ItemRecord) -> (r: Layout)
        ensures
            r@ == spec_instantiate_ref(element@, section@),
    {
        match section.get(element.item.as_str()) {
            Some(content) => {
                let text = content.as_text();
                let bound = match content {
                    ItemContent::Link { url, text: _ } => element.with_item(text).with_url(
                        url.clone(),
                    ),
                    _ => element.with_item(text),
                };
                Layout::Text(bound)
            },
            None => Layout::Stack(Container::empty_container()),
        }
    }

    /// Resolve every percentage width below this node against the reference
    /// width.
    pub fn scale_width(&self, reference: u32) -> (r: Layout)
        requires
            self@.widths_ok(),
        ensures
            r@ == self@.spec_scale(reference),
        decreases self,
    {
        match self {
            Layout::Stack(c) => Layout::Stack(c.scale_width(reference)),
            Layout::FrozenRow(c) => Layout::FrozenRow(c.scale_width(reference)),
            Layout::FlexRow(c) => Layout::FlexRow(c.scale_width(reference)),
            Layout::Text(e) => Layout::Text(e.scale_width(reference)),
            Layout::Ref(e) => Layout::Ref(e.scale_width(reference)),
        }
    }

    /// Clamp every width below this node to the incoming bound, resolving
    /// `Fill` widths to the bound.
    pub fn bound_width(&self, width: u32) -> (r: Layout)
        requires
            self@.is_scaled(),
        ensures
            r@ == self@.spec_bound(width),
        decreases self,
    {
        let own = self.width();
        let bound = match own {
            Width::Fixed(w) => if w <= width {
                w
            } else {
                width
            },
            Width::Percentage(_) => width,
            Width::Fill => width,
        };
        match self {
            Layout::Stack(c) => Layout::Stack(c.bound_width(bound)),
            Layout::FrozenRow(c) => Layout::FrozenRow(c.bound_width(bound)),
            Layout::FlexRow(c) => Layout::FlexRow(c.bound_width(bound)),
            Layout::Text(e) => Layout::Text(e.bound_width(bound)),
            Layout::Ref(e) => Layout::Ref(e.bound_width(bound)),
        }
    }

    /// Attach measured text widths to every leaf below this node.
    pub fn fill_fonts(&self, font_dict: &FontDict) -> (r: Layout)
        requires
            self@.fonts_ok(*font_dict),
            self@.fill_ready(),
        ensures
            r@ == self@.spec_fill_fonts(*font_dict),
        decreases self,
    {
        match self {
            Layout::Stack(c) => Layout::Stack(c.fill_fonts(font_dict)),
            Layout::FrozenRow(c) => Layout::FrozenRow(c.fill_fonts(font_dict)),
            Layout::FlexRow(c) => Layout::FlexRow(c.fill_fonts(font_dict)),
            Layout::Text(e) => Layout::Text(e.fill_fonts(font_dict)),
            Layout::Ref(e) => Layout::Ref(e.fill_fonts(font_dict)),
        }
    }
}

/// How a wrappable row groups its children into lines: a child is appended
/// to the current line while the summed width stays within the limit, else
/// the current line is emitted and the child starts a new one.  No line is
/// ever empty: an over-wide first child starts the first line rather than
/// emitting an empty one before it.
pub open spec fn spec_row_lines(
    elems: Seq<LayoutView>,
    limit: u32,
    cur: Seq<LayoutView>,
    curw: int,
) -> Seq<Seq<LayoutView>>
    decreases elems.len(),
{
    if elems.len() == 0 {
        if cur.len() == 0 {
            Seq::empty()
        } else {
            seq![cur]
        }
    } else {
        let ew = elems.first().spec_width().spec_units() as int;
        if curw + ew > limit {
            (if cur.len() == 0 {
                Seq::empty()
            } else {
                seq![cur]
            }) + spec_row_lines(elems.drop_first(), limit, seq![elems.first()], ew)
        } else {
            spec_row_lines(elems.drop_first(), limit, cur.push(elems.first()), curw + ew)
        }
    }
}

/// All the members of a sequence of lines, in order.
pub open spec fn seq_flatten(gs: Seq<Seq<LayoutView>>) -> Seq<LayoutView>
    decreases gs,
{
    if gs.len() == 0 {
        Seq::empty()
    } else {
        gs.first() + seq_flatten(gs.drop_first())
    }
}

/// The summed widths of a line grown by one member.
pub proof fn lemma_width_sum_push(s: Seq<LayoutView>, x: LayoutView)
    ensures
        seq_width_sum(s.push(x)) == seq_width_sum(s) + x.spec_width().spec_units(),
    decreases s.len(),
{
    if s.len() == 0 {
        assert(s.push(x).len() == 1);
        assert(s.push(x).first() == x);
        assert(s.push(x).drop_first() =~= Seq::<LayoutView>::empty());
        assert(seq_width_sum(s.push(x)) == s.push(x).first().spec_width().spec_units()
            + seq_width_sum(s.push(x).drop_first()));
    } else {
        assert(s.push(x).drop_first() =~= s.drop_first().push(x));
        assert(s.push(x).first() == s.first());
        lemma_width_sum_push(s.drop_first(), x);
    }
}

/// The row grouping partitions its input: flattening the lines in order
/// yields the seed line followed by the children, and no line is empty when
/// the seed is not.
pub proof fn lemma_row_lines_partition(
    elems: Seq<LayoutView>,
    limit: u32,
    cur: Seq<LayoutView>,
    curw: int,
)
    ensures
        seq_flatten(spec_row_lines(elems, limit, cur, curw)) == cur + elems,
        forall|g: int|
            0 <= g < spec_row_lines(elems, limit, cur, curw).len() && cur.len() > 0
                ==> (#[trigger] spec_row_lines(elems, limit, cur, curw)[g]).len() > 0,
        forall|g: int|
            1 <= g < spec_row_lines(elems, limit, cur, curw).len() ==> (#[trigger] spec_row_lines(
                elems,
                limit,
                cur,
                curw,
            )[g]).len() > 0,
        cur.len() == 0 && elems.len() > 0 ==> forall|g: int|
            0 <= g < spec_row_lines(elems, limit, cur, curw).len() ==> (#[trigger] spec_row_lines(
                elems,
                limit,
                cur,
                curw,
            )[g]).len() > 0,
    decreases elems.len(),
{
    let lines = spec_row_lines(elems, limit, cur, curw);
    if elems.len() == 0 {
        if cur.len() == 0 {
            assert(seq_flatten(lines) =~= cur + elems);
        } else {
            assert(lines == seq![cur]);
            assert(lines.first() == cur);
            assert(lines.drop_first() =~= Seq::<Seq<LayoutView>>::empty());
            assert(seq_flatten(lines.drop_first()) == Seq::<LayoutView>::empty());
            assert(seq_flatten(lines) =~= cur + elems);
        }
    } else {
        let first = elems.first();
        let rest = elems.drop_first();
        let ew = first.spec_width().spec_units() as int;
        if curw + ew > limit {
            lemma_row_lines_partition(rest, limit, seq![first], ew);
            let tail = spec_row_lines(rest, limit, seq![first], ew);
            if cur.len() == 0 {
                assert(Seq::<Seq<LayoutView>>::empty() + tail =~= tail);
                assert(lines == tail);
                assert(seq_flatten(lines) == seq![first] + rest);
                assert(seq![first] + rest =~= cur + elems);
            } else {
                assert(lines == seq![cur] + tail);
                assert(lines.first() == cur);
                assert(lines.drop_first() =~= tail);
                assert(seq_flatten(lines) == cur + seq_flatten(tail));
                assert(cur + (seq![first] + rest) =~= cur + elems);
            }
            assert forall|g: int| 1 <= g < lines.len() implies (#[trigger] lines[g]).len()
                > 0 by {
                if cur.len() == 0 {
                    assert(lines[g] == tail[g]);
                } else {
                    assert(lines[g] == tail[g - 1]);
                }
            }
        } else {
            lemma_row_lines_partition(rest, limit, cur.push(first), curw + ew);
            assert(cur.push(first) + rest =~= cur + elems);
        }
    }
}

/// Every line the row grouping emits fits the limit, as long as every child
/// does on its own and the seed line does: a single over-wide child is the
/// one way a line can exceed the limit, and with no such child there is
/// none.
pub proof fn lemma_row_lines_sums(
    elems: Seq<LayoutView>,
    limit: u32,
    cur: Seq<LayoutView>,
    curw: int,
)
    requires
        curw == seq_width_sum(cur),
        curw <= limit,
        forall|i: int|
            0 <= i < elems.len() ==> (#[trigger] elems[i]).spec_width().spec_units() <= limit,
    ensures
        forall|g: int|
            0 <= g < spec_row_lines(elems, limit, cur, curw).len() ==> seq_width_sum(
                #[trigger] spec_row_lines(elems, limit, cur, curw)[g],
            ) <= limit,
    decreases elems.len(),
{
    let lines = spec_row_lines(elems, limit, cur, curw);
    if elems.len() == 0 {
        if cur.len() > 0 {
            assert(lines == seq![cur]);
            assert forall|g: int| 0 <= g < lines.len() implies seq_width_sum(
                #[trigger] lines[g],
            ) <= limit by {
                assert(lines[g] == cur);
            }
        }
    } else {
        let first = elems.first();
        let rest = elems.drop_first();
        let ew = first.spec_width().spec_units() as int;
        assert(first == elems[0]);
        assert(forall|i: int| 0 <= i < rest.len() ==> #[trigger] rest[i] == elems[i + 1]);
        if curw + ew > limit {
            assert(seq_width_sum(seq![first]) == ew) by {
                assert(seq![first].len() == 1);
                assert(seq![first][0] == first);
                assert(seq![first].drop_first() =~= Seq::<LayoutView>::empty());
                assert(seq_width_sum(seq![first]) == seq![first].first().spec_width().spec_units()
                    + seq_width_sum(seq![first].drop_first()));
            }
            lemma_row_lines_sums(rest, limit, seq![first], ew);
            let tail = spec_row_lines(rest, limit, seq![first], ew);
            assert forall|g: int| 0 <= g < lines.len() implies seq_width_sum(
                #[trigger] lines[g],
            ) <= limit by {
                if cur.len() == 0 {
                    assert(Seq::<Seq<LayoutView>>::empty() + tail =~= tail);
                    assert(lines[g] == tail[g]);
                } else {
                    if g == 0 {
                        assert(lines[g] == cur);
                    } else {
                        assert(lines[g] == tail[g - 1]);
                    }
                }
            }
        } else {
            lemma_width_sum_push(cur, first);
            lemma_row_lines_sums(rest, limit, cur.push(first), curw + ew);
            let tail = spec_row_lines(rest, limit, cur.push(first), curw + ew);
            assert(lines == tail);
            assert forall|g: int| 0 <= g < lines.len() implies seq_width_sum(
                #[trigger] lines[g],
            ) <= limit by {
                assert(lines[g] == tail[g]);
            }
        }
    }
}

/// After wrapping, a row's lines partition its broken children in order,
/// none is empty, each line-container carries the row's own margin,
/// alignment and width, and when every broken child fits the row's width so
/// does every line's summed width.
pub proof fn lemma_row_containers_partition(c: ContainerView, d: FontDict)
    ensures
        ({
            let rows = c.spec_row_containers(d);
            let lines = spec_row_lines(
                c.spec_break_children(d),
                c.width.spec_units(),
                Seq::empty(),
                0,
            );
            &&& seq_flatten(lines) == c.spec_break_children(d)
            &&& forall|g: int|
                0 <= g < rows.len() ==> (#[trigger] rows[g]).elements.len() > 0 && rows[g].margin
                    == c.margin && rows[g].alignment == c.alignment && rows[g].width == c.width
            &&& (forall|i: int|
                0 <= i < c.spec_break_children(d).len()
                    ==> (#[trigger] c.spec_break_children(d)[i]).spec_width().spec_units()
                    <= c.width.spec_units()) ==> forall|g: int|
                0 <= g < rows.len() ==> seq_width_sum(#[trigger] rows[g].elements)
                    <= c.width.spec_units()
        }),
{
    let bc = c.spec_break_children(d);
    let w = c.width.spec_units();
    let lines = spec_row_lines(bc, w, Seq::empty(), 0);
    let rows = c.spec_row_containers(d);
    lemma_row_lines_partition(bc, w, Seq::empty(), 0);
    assert(Seq::<LayoutView>::empty() + bc =~= bc);
    if bc.len() == 0 {
        assert(lines.len() == 0);
    }
    assert forall|g: int| 0 <= g < rows.len() implies (#[trigger] rows[g]).elements.len() > 0
        && rows[g].margin == c.margin && rows[g].alignment == c.alignment && rows[g].width
        == c.width by {
        assert(rows[g].elements == lines[g]);
    }
    if forall|i: int|
        0 <= i < bc.len() ==> (#[trigger] bc[i]).spec_width().spec_units() <= w {
        assert(seq_width_sum(Seq::<LayoutView>::empty()) == 0);
        lemma_row_lines_sums(bc, w, Seq::empty(), 0);
        assert forall|g: int| 0 <= g < rows.len() implies seq_width_sum(
            #[trigger] rows[g].elements,
        ) <= w by {
            assert(rows[g].elements == lines[g]);
        }
    }
}

impl ContainerView {
    /// The children after line-breaking, each wrapped in turn.
    pub open spec fn spec_break_children(self, d: FontDict) -> Seq<LayoutView>
        decreases self, 0int,
    {
        Seq::new(
            self.elements.len(),
            |i: int|
                if 0 <= i < self.elements.len() {
                    self.elements[i].spec_break(d)
                } else {
                    LayoutView::Stack(spec_empty_container())
                },
        )
    }

    /// What breaking a wrappable row yields: its broken children grouped
    /// into lines, each line a copy of this container holding that line's
    /// children.
    pub open spec fn spec_row_containers(self, d: FontDict) -> Seq<ContainerView>
        decreases self, 1int,
    {
        let lines = spec_row_lines(self.spec_break_children(d), self.width.spec_units(), Seq::empty(), 0);
        Seq::new(
            lines.len(),
            |i: int|
                if 0 <= i < lines.len() {
                    ContainerView { elements: lines[i], ..self }
                } else {
                    self
                },
        )
    }
}

impl LayoutView {
    /// What line-breaking does to a tree.  Stacks wrap each child in place;
    /// a frozen row whose children fit becomes a wrappable row (an over-wide
    /// frozen row is a contradiction, reported by the executable transform);
    /// a wrappable row re-flows into a stack of rows, one per line; an
    /// over-wide text leaf becomes a stack of single-line text leaves.
    pub open spec fn spec_break(self, d: FontDict) -> LayoutView
        decreases self, 2int,
    {
        match self {
            LayoutView::Stack(c) => LayoutView::Stack(
                ContainerView { elements: c.spec_break_children(d), ..c },
            ),
            LayoutView::FrozenRow(c) => LayoutView::FlexRow(
                ContainerView { elements: c.spec_break_children(d), ..c },
            ),
            LayoutView::FlexRow(c) => LayoutView::Stack(
                ContainerView {
                    elements: Seq::new(
                        c.spec_row_containers(d).len(),
                        |i: int|
                            if 0 <= i < c.spec_row_containers(d).len() {
                                LayoutView::FlexRow(c.spec_row_containers(d)[i])
                            } else {
                                LayoutView::Stack(spec_empty_container())
                            },
                    ),
                    ..c
                },
            ),
            LayoutView::Text(e) => LayoutView::Stack(
                ContainerView {
                    elements: Seq::new(
                        e.spec_break_lines(d).len(),
                        |i: int|
                            if 0 <= i < e.spec_break_lines(d).len() {
                                LayoutView::Text(e.spec_break_lines(d)[i])
                            } else {
                                LayoutView::Stack(spec_empty_container())
                            },
                    ),
                    margin: e.margin,
                    alignment: e.alignment,
                    width: e.width,
                },
            ),
            LayoutView::Ref(e) => LayoutView::Ref(e),
        }
    }
}

/// Instantiation always yields an instantiated tree: no placeholder leaf
/// survives binding a record, whatever the template and the record are.
pub proof fn lemma_instantiate_instantiated(
    l: LayoutView,
    rec: Seq<(Seq<char>, ItemContentView)>,
)
    ensures
        l.spec_instantiate(rec).is_instantiated(),
    decreases l,
{
    match l {
        LayoutView::Stack(c) | LayoutView::FrozenRow(c) | LayoutView::FlexRow(c) => {
            let bc = c.spec_instantiate(rec);
            assert forall|i: int| 0 <= i < bc.elements.len() implies (#[trigger] bc.elements[i]).is_instantiated() by {
                assert(bc.elements[i] == c.elements[i].spec_instantiate(rec));
                lemma_instantiate_instantiated(c.elements[i], rec);
            }
        },
        LayoutView::Text(_) => {},
        LayoutView::Ref(e) => {
            match spec_lookup(rec, e.item) {
                Some(_) => {},
                None => {
                    assert(LayoutView::Stack(spec_empty_container()).is_instantiated());
                },
            }
        },
    }
}

/// Instantiation keeps every percentage width in range and keeps every
/// referenced font measurable: a bound placeholder keeps its element's width
/// and font, and an unmatched one collapses to an empty fixed-width stack.
pub proof fn lemma_instantiate_preserves(
    l: LayoutView,
    rec: Seq<(Seq<char>, ItemContentView)>,
    d: FontDict,
)
    ensures
        l.widths_ok() ==> l.spec_instantiate(rec).widths_ok(),
        l.fonts_ok(d) ==> l.spec_instantiate(rec).fonts_ok(d),
    decreases l,
{
    match l {
        LayoutView::Stack(c) | LayoutView::FrozenRow(c) | LayoutView::FlexRow(c) => {
            let bc = c.spec_instantiate(rec);
            assert forall|i: int| 0 <= i < bc.elements.len() implies ((c.widths_ok()
                ==> (#[trigger] bc.elements[i]).widths_ok()) && (c.fonts_ok(d) ==> bc.elements[i].fonts_ok(d))) by {
                assert(bc.elements[i] == c.elements[i].spec_instantiate(rec));
                lemma_instantiate_preserves(c.elements[i], rec, d);
            }
        },
        LayoutView::Text(_) => {},
        LayoutView::Ref(e) => {
            match spec_lookup(rec, e.item) {
                Some(_) => {},
                None => {},
            }
        },
    }
}

/// The geometry walk is monotone in its starting corner: starting lower or
/// further right never lets the content end higher, nor shrinks the largest
/// coordinate the walk touches.
pub proof fn lemma_boxes_monotone(l: LayoutView, d: FontDict, x: int, x2: int, y: int, y2: int)
    requires
        0 <= x <= x2,
        0 <= y <= y2,
    ensures
        spec_boxes(l, d, x, y).0 <= spec_boxes(l, d, x2, y2).0,
        spec_boxes(l, d, x, y).2 <= spec_boxes(l, d, x2, y2).2,
    decreases l, 1int,
{
    match l {
        LayoutView::Stack(c) => {
            lemma_stack_boxes_monotone(c.elements, d, x, x2, y, y2);
        },
        LayoutView::FlexRow(c) => {
            let n = c.elements.len() as int;
            let w = c.width.spec_units() as int;
            let s = seq_width_sum(c.elements);
            let space = if w >= s {
                w - s
            } else {
                0
            };
            let off = match c.alignment {
                Alignment::Left => 0int,
                Alignment::Center => space / 2,
                Alignment::Right => space,
                Alignment::Justified => 0int,
            };
            let gap = if c.alignment is Justified && n >= 2 {
                space / (n - 1)
            } else {
                0
            };
            assert(space / 2 >= 0);
            assert(gap >= 0) by {
                if c.alignment is Justified && n >= 2 {
                    assert(space / (n - 1) >= 0);
                }
            }
            lemma_row_boxes_monotone(c.elements, d, x + off, x2 + off, y, y2, gap);
        },
        LayoutView::Text(_) => {},
        LayoutView::FrozenRow(_) | LayoutView::Ref(_) => {},
    }
}

/// Monotonicity of the stacked-children walk.
pub proof fn lemma_stack_boxes_monotone(
    elems: Seq<LayoutView>,
    d: FontDict,
    x: int,
    x2: int,
    y: int,
    y2: int,
)
    requires
        0 <= x <= x2,
        0 <= y <= y2,
    ensures
        spec_stack_boxes(elems, d, x, y).0 <= spec_stack_boxes(elems, d, x2, y2).0,
        spec_stack_boxes(elems, d, x, y).2 <= spec_stack_boxes(elems, d, x2, y2).2,
    decreases elems, 0int,
{
    if elems.len() > 0 {
        lemma_boxes_monotone(elems.first(), d, x, x2, y, y2);
        lemma_boxes_bounds(elems.first(), d, x, y);
        lemma_stack_boxes_monotone(
            elems.drop_first(),
            d,
            x,
            x2,
            spec_boxes(elems.first(), d, x, y).0,
            spec_boxes(elems.first(), d, x2, y2).0,
        );
    }
}

/// Monotonicity of the row-children walk, for a non-negative gap.
pub proof fn lemma_row_boxes_monotone(
    elems: Seq<LayoutView>,
    d: FontDict,
    x: int,
    x2: int,
    y: int,
    y2: int,
    gap: int,
)
    requires
        0 <= x <= x2,
        0 <= y <= y2,
        gap >= 0,
    ensures
        spec_row_boxes(elems, d, x, y, gap).0 <= spec_row_boxes(elems, d, x2, y2, gap).0,
        spec_row_boxes(elems, d, x, y, gap).2 <= spec_row_boxes(elems, d, x2, y2, gap).2,
    decreases elems, 0int,
{
    if elems.len() > 0 {
        lemma_boxes_monotone(elems.first(), d, x, x2, y, y2);
        lemma_row_boxes_monotone(
            elems.drop_first(),
            d,
            x + elems.first().spec_width().spec_units() + gap,
            x2 + elems.first().spec_width().spec_units() + gap,
            y,
            y2,
            gap,
        );
    }
}

/// Scaling resolves every percentage, keeps every font and keeps the tree
/// instantiated.
pub proof fn lemma_scale_preserves(l: LayoutView, reference: u32, d: FontDict)
    ensures
        l.spec_scale(reference).is_scaled(),
        l.fonts_ok(d) ==> l.spec_scale(reference).fonts_ok(d),
        l.is_instantiated() ==> l.spec_scale(reference).is_instantiated(),
    decreases l,
{
    match l {
        LayoutView::Stack(c) | LayoutView::FrozenRow(c) | LayoutView::FlexRow(c) => {
            let bc = c.spec_scale(reference);
            assert forall|i: int| 0 <= i < bc.elements.len() implies (#[trigger] bc.elements[i]).is_scaled() && (c.fonts_ok(d) ==> bc.elements[i].fonts_ok(d)) && (
            c.is_instantiated() ==> bc.elements[i].is_instantiated()) by {
                assert(bc.elements[i] == c.elements[i].spec_scale(reference));
                lemma_scale_preserves(c.elements[i], reference, d);
            }
        },
        LayoutView::Text(_) | LayoutView::Ref(_) => {},
    }
}

/// Bounding resolves every width to `Fixed`, keeps every font and keeps the
/// tree instantiated.
pub proof fn lemma_bound_preserves(l: LayoutView, width: u32, d: FontDict)
    ensures
        l.spec_bound(width).all_widths_fixed(),
        l.fonts_ok(d) ==> l.spec_bound(width).fonts_ok(d),
        l.is_instantiated() ==> l.spec_bound(width).is_instantiated(),
    decreases l,
{
    let bound = l.spec_own_bound(width);
    match l {
        LayoutView::Stack(c) | LayoutView::FrozenRow(c) | LayoutView::FlexRow(c) => {
            let bc = c.spec_bound(bound);
            assert forall|i: int| 0 <= i < bc.elements.len() implies (#[trigger] bc.elements[i]).all_widths_fixed() && (c.fonts_ok(d) ==> bc.elements[i].fonts_ok(d)) && (
            c.is_instantiated() ==> bc.elements[i].is_instantiated()) by {
                assert(bc.elements[i] == c.elements[i].spec_bound(c.spec_inner_bound(bound)));
                lemma_bound_preserves(c.elements[i], c.spec_inner_bound(bound), d);
            }
        },
        LayoutView::Text(_) | LayoutView::Ref(_) => {},
    }
}

/// A tree whose widths are all resolved is ready for font-filling: no
/// fill-marked leaf has an unresolved width.
pub proof fn lemma_fixed_fill_ready(l: LayoutView)
    requires
        l.all_widths_fixed(),
    ensures
        l.fill_ready(),
    decreases l,
{
    match l {
        LayoutView::Stack(c) | LayoutView::FrozenRow(c) | LayoutView::FlexRow(c) => {
            assert forall|i: int| 0 <= i < c.elements.len() implies (#[trigger] c.elements[i]).fill_ready() by {
                lemma_fixed_fill_ready(c.elements[i]);
            }
        },
        LayoutView::Text(_) | LayoutView::Ref(_) => {},
    }
}

/// Font-filling attaches a measured width to every text leaf, keeps every
/// width resolved, keeps every font and keeps the tree instantiated.
pub proof fn lemma_fill_preserves(l: LayoutView, d: FontDict)
    ensures
        l.spec_fill_fonts(d).is_filled(),
        l.all_widths_fixed() ==> l.spec_fill_fonts(d).all_widths_fixed(),
        l.fonts_ok(d) ==> l.spec_fill_fonts(d).fonts_ok(d),
        l.is_instantiated() ==> l.spec_fill_fonts(d).is_instantiated(),
    decreases l,
{
    match l {
        LayoutView::Stack(c) | LayoutView::FrozenRow(c) | LayoutView::FlexRow(c) => {
            let bc = c.spec_fill_fonts(d);
            assert forall|i: int| 0 <= i < bc.elements.len() implies (#[trigger] bc.elements[i]).is_filled() && (c.elements[i].all_widths_fixed() ==> bc.elements[i].all_widths_fixed()) && (c.elements[i].fonts_ok(d) ==> bc.elements[i].fonts_ok(d))
                && (c.elements[i].is_instantiated() ==> bc.elements[i].is_instantiated()) by {
                assert(bc.elements[i] == c.elements[i].spec_fill_fonts(d));
                lemma_fill_preserves(c.elements[i], d);
            }
        },
        LayoutView::Text(_) | LayoutView::Ref(_) => {},
    }
}

/// Every member of every line the row grouping emits comes from the seed
/// line or from the children handed to it.
pub proof fn lemma_row_lines_members(
    elems: Seq<LayoutView>,
    limit: u32,
    cur: Seq<LayoutView>,
    curw: int,
)
    ensures
        forall|g: int, k: int|
            0 <= g < spec_row_lines(elems, limit, cur, curw).len() && 0 <= k < spec_row_lines(
                elems,
                limit,
                cur,
                curw,
            )[g].len() ==> cur.contains(
                #[trigger] spec_row_lines(elems, limit, cur, curw)[g][k],
            ) || elems.contains(spec_row_lines(elems, limit, cur, curw)[g][k]),
    decreases elems.len(),
{
    let lines = spec_row_lines(elems, limit, cur, curw);
    if elems.len() == 0 {
    } else {
        let first = elems.first();
        let rest = elems.drop_first();
        assert(elems.contains(first)) by {
            assert(elems[0] == first);
        }
        assert(forall|x: LayoutView| rest.contains(x) ==> elems.contains(x)) by {
            assert forall|x: LayoutView| rest.contains(x) implies elems.contains(x) by {
                let j = choose|j: int| 0 <= j < rest.len() && rest[j] == x;
                assert(elems[j + 1] == x);
            }
        }
        let ew = first.spec_width().spec_units() as int;
        if curw + ew > limit {
            lemma_row_lines_members(rest, limit, seq![first], ew);
            let tail = spec_row_lines(rest, limit, seq![first], ew);
            assert forall|g: int, k: int|
                0 <= g < lines.len() && 0 <= k < lines[g].len() implies cur.contains(
                #[trigger] lines[g][k],
            ) || elems.contains(lines[g][k]) by {
                if cur.len() == 0 {
                    assert(Seq::<Seq<LayoutView>>::empty() + tail =~= tail);
                    assert(lines[g] == tail[g]);
                    if seq![first].contains(tail[g][k]) {
                        assert(tail[g][k] == first);
                    }
                } else if g == 0 {
                    assert(lines[0] == cur);
                } else {
                    assert(lines[g] == tail[g - 1]);
                    if seq![first].contains(tail[g - 1][k]) {
                        assert(tail[g - 1][k] == first);
                    }
                }
            }
        } else {
            lemma_row_lines_members(rest, limit, cur.push(first), curw + ew);
            let tail = spec_row_lines(rest, limit, cur.push(first), curw + ew);
            assert forall|g: int, k: int|
                0 <= g < lines.len() && 0 <= k < lines[g].len() implies cur.contains(
                #[trigger] lines[g][k],
            ) || elems.contains(lines[g][k]) by {
                assert(lines[g] == tail[g]);
                if cur.push(first).contains(tail[g][k]) {
                    let j = choose|j: int|
                        0 <= j < cur.push(first).len() && cur.push(first)[j] == tail[g][k];
                    if j < cur.len() {
                        assert(cur[j] == tail[g][k]);
                    } else {
                        assert(tail[g][k] == first);
                    }
                }
            }
        }
    }
}

/// Line-breaking yields a tree that is ready for geometry: no frozen row
/// remains, every width stays resolved, every text leaf stays measured, and
/// an instantiated tree stays instantiated.
pub proof fn lemma_break_preserves(l: LayoutView, d: FontDict)
    requires
        l.all_widths_fixed(),
        l.is_filled(),
    ensures
        l.spec_break(d).all_widths_fixed(),
        l.spec_break(d).is_filled(),
        l.is_instantiated() ==> l.spec_break(d).frozen_free(),
        l.is_instantiated() ==> l.spec_break(d).is_instantiated(),
        l.fonts_ok(d) ==> l.spec_break(d).fonts_ok(d),
    decreases l,
{
    let res = l.spec_break(d);
    match l {
        LayoutView::Stack(c) | LayoutView::FrozenRow(c) | LayoutView::FlexRow(c) => {
            let bc = c.spec_break_children(d);
            assert forall|i: int| 0 <= i < bc.len() implies (#[trigger] bc[i]).all_widths_fixed()
                && bc[i].is_filled() && (c.elements[i].is_instantiated() ==> bc[i].frozen_free()
                && bc[i].is_instantiated()) && (c.elements[i].fonts_ok(d) ==> bc[i].fonts_ok(d)) by {
                assert(bc[i] == c.elements[i].spec_break(d));
                lemma_break_preserves(c.elements[i], d);
            }
            assert forall|i: int|
                0 <= i < bc.len() && c.is_instantiated() implies (#[trigger] bc[i]).frozen_free()
                && bc[i].is_instantiated() by {
                assert(c.elements[i].is_instantiated());
            }
            assert forall|i: int|
                0 <= i < bc.len() && c.fonts_ok(d) implies (#[trigger] bc[i]).fonts_ok(d) by {
                assert(c.elements[i].fonts_ok(d));
            }
            if l is Stack {
                let rc = ContainerView { elements: bc, ..c };
                assert(res == LayoutView::Stack(rc));
                assert(rc.all_widths_fixed());
                assert(rc.is_filled());
                assert(c.is_instantiated() ==> rc.frozen_free() && rc.is_instantiated());
                assert(c.fonts_ok(d) ==> rc.fonts_ok(d));
            } else if l is FrozenRow {
                let rc = ContainerView { elements: bc, ..c };
                assert(res == LayoutView::FlexRow(rc));
                assert(rc.all_widths_fixed());
                assert(rc.is_filled());
                assert(c.is_instantiated() ==> rc.frozen_free() && rc.is_instantiated());
                assert(c.fonts_ok(d) ==> rc.fonts_ok(d));
            } else {
                let rows = c.spec_row_containers(d);
                let lines = spec_row_lines(bc, c.width.spec_units(), Seq::empty(), 0);
                lemma_row_lines_members(bc, c.width.spec_units(), Seq::empty(), 0);
                assert forall|g: int| 0 <= g < rows.len() implies (#[trigger] rows[g]).all_widths_fixed() && rows[g].is_filled() && (c.is_instantiated()
                    ==> rows[g].frozen_free() && rows[g].is_instantiated()) && (c.fonts_ok(d)
                    ==> rows[g].fonts_ok(d)) by {
                    assert(rows[g].elements == lines[g]);
                    assert forall|k: int| 0 <= k < lines[g].len() implies (#[trigger] lines[g][k]).all_widths_fixed() && lines[g][k].is_filled() && (c.is_instantiated()
                        ==> lines[g][k].frozen_free() && lines[g][k].is_instantiated()) && (
                    c.fonts_ok(d) ==> lines[g][k].fonts_ok(d)) by {
                        assert(bc.contains(lines[g][k]));
                        let j = choose|j: int| 0 <= j < bc.len() && bc[j] == lines[g][k];
                        assert(bc[j] == c.elements[j].spec_break(d));
                    }
                }
                assert(res is Stack);
                let outer = res->Stack_0;
                assert(outer.width == c.width);
                assert(outer.elements.len() == rows.len());
                assert forall|i: int| 0 <= i < outer.elements.len() implies (#[trigger] outer.elements[i]).all_widths_fixed() && outer.elements[i].is_filled() && (
                c.is_instantiated() ==> outer.elements[i].frozen_free()
                    && outer.elements[i].is_instantiated()) && (c.fonts_ok(d)
                    ==> outer.elements[i].fonts_ok(d)) by {
                    assert(outer.elements[i] == LayoutView::FlexRow(rows[i]));
                }
                assert(outer.all_widths_fixed());
                assert(outer.is_filled());
                assert(c.is_instantiated() ==> outer.frozen_free() && outer.is_instantiated());
                assert(c.fonts_ok(d) ==> outer.fonts_ok(d));
            }
        },
        LayoutView::Text(e) => {
            let lines = e.spec_break_lines(d);
            assert forall|i: int| 0 <= i < lines.len() implies (#[trigger] lines[i]).width
                is Fixed && lines[i].text_width is Fixed by {
                if e.text_width.spec_units() <= e.width.spec_units() {
                    assert(lines[i] == e);
                } else {
                    assert(lines[i] == crate::element::spec_line_element(
                        e,
                        d,
                        crate::element::spec_line_texts(
                            d,
                            e.font,
                            e.width.spec_units(),
                            crate::element::spec_words(e.item),
                        )[i],
                    ));
                }
            }
            assert(res is Stack);
            let outer = res->Stack_0;
            assert(outer.width == e.width);
            assert(outer.elements.len() == lines.len());
            assert forall|i: int| 0 <= i < outer.elements.len() implies (#[trigger] outer.elements[i]).all_widths_fixed() && outer.elements[i].is_filled()
                && outer.elements[i].frozen_free() && outer.elements[i].is_instantiated() && (
            l.fonts_ok(d) ==> outer.elements[i].fonts_ok(d)) by {
                assert(outer.elements[i] == LayoutView::Text(lines[i]));
                assert(lines[i].font == e.font) by {
                    if e.text_width.spec_units() <= e.width.spec_units() {
                        assert(lines[i] == e);
                    } else {
                        assert(lines[i] == crate::element::spec_line_element(
                            e,
                            d,
                            crate::element::spec_line_texts(
                                d,
                                e.font,
                                e.width.spec_units(),
                                crate::element::spec_words(e.item),
                            )[i],
                        ));
                    }
                }
            }
            assert(outer.all_widths_fixed());
            assert(outer.is_filled());
            assert(outer.frozen_free() && outer.is_instantiated());
            assert(l.fonts_ok(d) ==> outer.fonts_ok(d));
        },
        LayoutView::Ref(_) => {},
    }
}

/// Re-running the bound stage with the same bound changes nothing: bounding
/// is idempotent.
pub proof fn lemma_bound_width_idempotent(l: LayoutView, width: u32)
    ensures
        l.spec_bound(width).spec_bound(width) == l.spec_bound(width),
    decreases l,
{
    let once = l.spec_bound(width);
    let bound = l.spec_own_bound(width);
    match l {
        LayoutView::Stack(c) | LayoutView::FrozenRow(c) | LayoutView::FlexRow(c) => {
            let inner = c.spec_inner_bound(bound);
            let bc = c.spec_bound(bound);
            assert(bc.width == Width::Fixed(inner));
            assert(inner <= width);
            assert(once.spec_own_bound(width) == inner);
            assert(bc.spec_inner_bound(inner) == inner);
            let twice_c = bc.spec_bound(inner);
            assert forall|i: int| 0 <= i < twice_c.elements.len() implies #[trigger] twice_c
                .elements[i] == bc.elements[i] by {
                assert(bc.elements[i] == c.elements[i].spec_bound(inner));
                assert(twice_c.elements[i] == bc.elements[i].spec_bound(inner));
                lemma_bound_width_idempotent(c.elements[i], inner);
            }
            assert(twice_c.elements =~= bc.elements);
            assert(twice_c =~= bc);
        },
        LayoutView::Text(e) | LayoutView::Ref(e) => {
            assert(once.spec_bound(width) =~~= once);
        },
    }
}

impl LayoutView {
    /// What the whole normalization pipeline yields: scale, bound,
    /// font-fill, then line-break, against the document's reference width.
    pub open spec fn spec_normalize(self, width: u32, d: FontDict) -> LayoutView {
        self.spec_scale(width).spec_bound(width).spec_fill_fonts(d).spec_break(d)
    }

    /// Whether normalization stops with a frozen-row contradiction: some
    /// frozen row's children, once scaled, bounded and measured, exceed its
    /// declared width.
    pub open spec fn spec_normalize_overflows(self, width: u32, d: FontDict) -> bool {
        !self.spec_scale(width).spec_bound(width).spec_fill_fonts(d).frozen_ok()
    }
}

impl Layout {
    /// Whether every leaf's effective width is resolved: every declared
    /// width is `Fixed` and every text leaf carries a measured text width.
    /// Required before geometry computation.
    pub fn is_bounded(&self) -> (r: bool)
        ensures
            r == self@.is_bounded(),
        decreases self,
    {
        match self {
            Layout::Stack(c) | Layout::FrozenRow(c) | Layout::FlexRow(c) => {
                match c.width {
                    Width::Fixed(_) => {},
                    _ => {
                        return false;
                    },
                }
                let ghost kids = c@.elements;
                let mut i: usize = 0;
                proof {
                    assert(c@.elements == layout_views(c.elements@));
                }
                #[verifier::loop_isolation(false)]
                while i < c.elements.len()
                    invariant
                        i <= c.elements@.len(),
                        forall|j: int| 0 <= j < i ==> (#[trigger] kids[j]).is_bounded(),
                    decreases c.elements@.len() - i,
                {
                    proof {
                        assert(decreases_to!(c => c.elements));
                        assert(decreases_to!(c.elements => c.elements@[i as int]));
                        assert(kids[i as int] == c.elements@[i as int]@);
                    }
                    if !c.elements[i].is_bounded() {
                        proof {
                            assert(!(kids[i as int]).is_bounded());
                            assert(!(c@.all_widths_fixed() && c@.is_filled()));
                        }
                        return false;
                    }
                    i = i + 1;
                }
                proof {
                    assert forall|j: int| 0 <= j < kids.len() implies (#[trigger] kids[j]).all_widths_fixed() && kids[j].is_filled() by {
                        assert(kids[j].is_bounded());
                    }
                }
                true
            },
            Layout::Text(e) => {
                match (e.width, e.text_width) {
                    (Width::Fixed(_), Width::Fixed(_)) => true,
                    _ => false,
                }
            },
            Layout::Ref(e) => {
                match e.width {
                    Width::Fixed(_) => true,
                    _ => false,
                }
            },
        }
    }

    /// Whether no frozen row remains anywhere in the subtree.
    pub fn frozen_free(&self) -> (r: bool)
        ensures
            r == self@.frozen_free(),
        decreases self,
    {
        match self {
            Layout::Stack(c) | Layout::FlexRow(c) => {
                let ghost kids = c@.elements;
                let mut i: usize = 0;
                proof {
                    assert(c@.elements == layout_views(c.elements@));
                }
                #[verifier::loop_isolation(false)]
                while i < c.elements.len()
                    invariant
                        i <= c.elements@.len(),
                        forall|j: int| 0 <= j < i ==> (#[trigger] kids[j]).frozen_free(),
                    decreases c.elements@.len() - i,
                {
                    proof {
                        assert(decreases_to!(c => c.elements));
                        assert(decreases_to!(c.elements => c.elements@[i as int]));
                        assert(kids[i as int] == c.elements@[i as int]@);
                    }
                    if !c.elements[i].frozen_free() {
                        proof {
                            assert(!(kids[i as int]).frozen_free());
                        }
                        return false;
                    }
                    i = i + 1;
                }
                true
            },
            Layout::FrozenRow(_) => false,
            Layout::Text(_) | Layout::Ref(_) => true,
        }
    }

    /// Wrap over-wide text and rows.  A frozen row whose children fit
    /// becomes a wrappable row; one whose children exceed its width is a
    /// template-authoring contradiction and surfaces as
    /// `FrozenRowOverflow`.
    pub fn break_lines(&self, font_dict: &FontDict) -> (r: Result<Layout, LayoutError>)
        requires
            self@.all_widths_fixed(),
            self@.is_filled(),
            self@.fonts_ok(*font_dict),
        ensures
            self@.frozen_ok() ==> (r matches Ok(l) && l@ == self@.spec_break(*font_dict)),
            !self@.frozen_ok() ==> r == Err::<Layout, LayoutError>(LayoutError::FrozenRowOverflow),
        decreases self,
    {
        let ghost d = *font_dict;
        match self {
            Layout::Stack(c) => {
                match Layout::break_children(c, font_dict) {
                    Ok(kids) => {
                        let out = Layout::Stack(c.with_elements(kids));
                        proof {
                            assert(out@->Stack_0 =~= (ContainerView {
                                elements: c@.spec_break_children(d),
                                ..c@
                            }));
                        }
                        Ok(out)
                    },
                    Err(e) => Err(e),
                }
            },
            Layout::FrozenRow(c) => {
                let limit = c.width.get_fixed_unchecked();
                let ghost kids = c@.elements;
                let mut total: u64 = 0;
                let mut i: usize = 0;
                proof {
                    assert(c@.elements == layout_views(c.elements@));
                    lemma_width_sum_prefix(kids, 0);
                }
                #[verifier::loop_isolation(false)]
                while i < c.elements.len()
                    invariant
                        i <= c.elements@.len(),
                        total == seq_width_sum(kids.take(i as int)),
                        total <= limit,
                    decreases c.elements@.len() - i,
                {
                    proof {
                        assert(kids[i as int] == c.elements@[i as int]@);
                        lemma_fixed_width(kids[i as int]);
                        lemma_width_sum_take_step(kids, i as int);
                    }
                    let w = c.elements[i].width().get_fixed_unchecked();
                    if total + (w as u64) > (limit as u64) {
                        proof {
                            lemma_width_sum_take_bound(kids, i as int + 1);
                            assert(seq_width_sum(kids) > limit);
                            assert(!self@.frozen_ok());
                        }
                        return Err(LayoutError::FrozenRowOverflow);
                    }
                    total = total + (w as u64);
                    i = i + 1;
                }
                proof {
                    assert(kids.take(i as int) =~= kids);
                    assert(seq_width_sum(kids) <= limit);
                }
                match Layout::break_children(c, font_dict) {
                    Ok(kids2) => {
                        let out = Layout::FlexRow(c.with_elements(kids2));
                        proof {
                            assert(out@->FlexRow_0 =~= (ContainerView {
                                elements: c@.spec_break_children(d),
                                ..c@
                            }));
                        }
                        Ok(out)
                    },
                    Err(e) => Err(e),
                }
            },
            Layout::FlexRow(c) => {
                match c.break_lines(font_dict) {
                    Ok(lines) => {
                        let mut rows: Vec<Layout> = Vec::new();
                        let ghost rcs = c@.spec_row_containers(d);
                        let mut i: usize = 0;
                        proof {
                            assert(container_views(lines@) == rcs);
                        }
                        #[verifier::loop_isolation(false)]
                        while i < lines.len()
                            invariant
                                i <= lines@.len(),
                                rows@.len() == i,
                                forall|j: int|
                                    0 <= j < i ==> #[trigger] rows@[j]@ == LayoutView::FlexRow(
                                        rcs[j],
                                    ),
                            decreases lines@.len() - i,
                        {
                            proof {
                                assert(container_views(lines@)[i as int] == lines@[i as int]@);
                            }
                            rows.push(Layout::FlexRow(lines[i].duplicate()));
                            i = i + 1;
                        }
                        let out = Layout::Stack(c.with_elements(rows));
                        proof {
                            assert(self@.spec_break(d) is Stack);
                            let target = self@.spec_break(d)->Stack_0;
                            assert(target.elements.len() == rcs.len());
                            assert forall|j: int| 0 <= j < rcs.len() implies layout_views(rows@)[j] == target.elements[j] by {
                                assert(target.elements[j] == LayoutView::FlexRow(rcs[j]));
                                assert(layout_views(rows@)[j] == rows@[j]@);
                            }
                            assert(out@->Stack_0.elements =~= target.elements);
                            assert(out@->Stack_0 =~= target);
                        }
                        Ok(out)
                    },
                    Err(e) => Err(e),
                }
            },
            Layout::Text(e) => {
                let lines = e.break_lines(font_dict);
                let ghost els = e@.spec_break_lines(d);
                let mut kids: Vec<Layout> = Vec::new();
                let mut i: usize = 0;
                proof {
                    assert(element_views(lines@) == els);
                }
                #[verifier::loop_isolation(false)]
                while i < lines.len()
                    invariant
                        i <= lines@.len(),
                        kids@.len() == i,
                        forall|j: int|
                            0 <= j < i ==> #[trigger] kids@[j]@ == LayoutView::Text(els[j]),
                    decreases lines@.len() - i,
                {
                    proof {
                        assert(element_views(lines@)[i as int] == lines@[i as int]@);
                    }
                    kids.push(Layout::Text(lines[i].duplicate()));
                    i = i + 1;
                }
                let out = Layout::Stack(
                    Container {
                        elements: kids,
                        margin: e.margin,
                        alignment: e.alignment,
                        width: e.width,
                    },
                );
                proof {
                    assert(self@.spec_break(d) is Stack);
                    let target = self@.spec_break(d)->Stack_0;
                    assert(target.elements.len() == els.len());
                    assert(out@->Stack_0.elements == layout_views(out->Stack_0.elements@));
                    assert forall|j: int| 0 <= j < els.len() implies out@->Stack_0.elements[j]
                        == target.elements[j] by {
                        assert(target.elements[j] == LayoutView::Text(els[j]));
                        assert(out@->Stack_0.elements[j] == out->Stack_0.elements@[j]@);
                    }
                    assert(out@->Stack_0.elements =~= target.elements);
                    assert(out@->Stack_0 =~= target);
                }
                Ok(out)
            },
            Layout::Ref(e) => Ok(Layout::Ref(e.duplicate())),
        }
    }

    /// Wrap each child of a container, stopping at the first frozen-row
    /// contradiction below.
    fn break_children(c: &Container, font_dict: &FontDict) -> (r: Result<Vec<Layout>, LayoutError>)
        requires
            c@.all_widths_fixed(),
            c@.is_filled(),
            c@.fonts_ok(*font_dict),
        ensures
            c@.frozen_ok() ==> (r matches Ok(v) && layout_views(v@) == c@.spec_break_children(
                *font_dict,
            )),
            !c@.frozen_ok() ==> r == Err::<Vec<Layout>, LayoutError>(
                LayoutError::FrozenRowOverflow,
            ),
        decreases c,
    {
        let ghost d = *font_dict;
        let ghost bk = c@.spec_break_children(d);
        let mut out: Vec<Layout> = Vec::new();
        let mut i: usize = 0;
        proof {
            assert(c@.elements == layout_views(c.elements@));
        }
        while i < c.elements.len()
            invariant
                i <= c.elements@.len(),
                out@.len() == i,
                d == *font_dict,
                c@.all_widths_fixed(),
                c@.is_filled(),
                c@.fonts_ok(d),
                bk == c@.spec_break_children(d),
                c@.elements == layout_views(c.elements@),
                forall|j: int| 0 <= j < i ==> (#[trigger] c@.elements[j]).frozen_ok(),
                forall|j: int| 0 <= j < i ==> #[trigger] out@[j]@ == bk[j],
            decreases c.elements@.len() - i,
        {
            proof {
                assert(decreases_to!(c => c.elements));
                assert(decreases_to!(c.elements => c.elements@[i as int]));
                assert(c@.elements[i as int] == c.elements@[i as int]@);
                assert(bk[i as int] == c@.elements[i as int].spec_break(d));
            }
            match c.elements[i].break_lines(font_dict) {
                Ok(l) => {
                    out.push(l);
                },
                Err(e) => {
                    proof {
                        assert(!c@.elements[i as int].frozen_ok());
                        assert(!c@.frozen_ok());
                    }
                    return Err(e);
                },
            }
            i = i + 1;
        }
        proof {
            assert(c@.frozen_ok());
            assert forall|j: int| 0 <= j < out@.len() implies layout_views(out@)[j] == bk[j] by {
                assert(layout_views(out@)[j] == out@[j]@);
            }
            assert(layout_views(out@) =~= bk);
        }
        Ok(out)
    }

    /// Run the normalization pipeline: scale percentages against the
    /// document width, bound every width, attach measured text widths, then
    /// wrap over-wide text and rows.  A tree that still holds placeholders
    /// cannot be normalized; an over-wide frozen row is a template
    /// contradiction.
    pub fn normalize(&self, document: &DocumentDefinition, font_dict: &FontDict) -> (r: Result<
        Layout,
        LayoutError,
    >)
        requires
            self@.widths_ok(),
            self@.fonts_ok(*font_dict),
        ensures
            !self@.is_instantiated() ==> r == Err::<Layout, LayoutError>(
                LayoutError::UnboundedGeometry,
            ),
            self@.is_instantiated() && !self@.spec_normalize_overflows(document.width, *font_dict)
                ==> (r matches Ok(l) && l@ == self@.spec_normalize(document.width, *font_dict)),
            self@.is_instantiated() && self@.spec_normalize_overflows(document.width, *font_dict)
                ==> r == Err::<Layout, LayoutError>(LayoutError::FrozenRowOverflow),
    {
        if !self.is_instantiated() {
            return Err(LayoutError::UnboundedGeometry);
        }
        let ghost d = *font_dict;
        let scaled = self.scale_width(document.width);
        proof {
            lemma_scale_preserves(self@, document.width, d);
        }
        let bounded = scaled.bound_width(document.width);
        proof {
            lemma_bound_preserves(self@.spec_scale(document.width), document.width, d);
            lemma_fixed_fill_ready(bounded@);
        }
        let filled = bounded.fill_fonts(font_dict);
        proof {
            lemma_fill_preserves(bounded@, d);
        }
        filled.break_lines(font_dict)
    }
}

/// The larger of two integers.
pub open spec fn spec_max(a: int, b: int) -> int {
    if a >= b {
        a
    } else {
        b
    }
}

/// The box a text leaf occupies: its top-left corner at the cursor, its
/// extent the measured text width and the font's line height.  Returns the
/// depth below the box, the emitted box, and the largest coordinate used.
pub open spec fn spec_text_box(e: ElementView, d: FontDict, x: int, y: int) -> (
    int,
    Seq<(SpatialBox, ElementView)>,
    int,
) {
    let tw = e.text_width.spec_units() as int;
    let h = crate::font::measured_height(d, e.font) as int;
    (
        y + h,
        seq![
            (
                SpatialBox {
                    top_left: Point { x: x as u32, y: y as u32 },
                    bottom_right: Point { x: (x + tw) as u32, y: (y + h) as u32 },
                },
                e,
            ),
        ],
        spec_max(x + tw, y + h),
    )
}

/// The geometry of a normalized tree laid out with its top-left corner at
/// `(x, y)`: the depth where its content ends, the positioned boxes of its
/// text leaves in order, and the largest coordinate the walk touches (the
/// executable walk requires it to fit the machine's integers).  Frozen rows
/// and placeholders, which a normalized tree cannot hold, take no space.
pub open spec fn spec_boxes(l: LayoutView, d: FontDict, x: int, y: int) -> (
    int,
    Seq<(SpatialBox, ElementView)>,
    int,
)
    decreases l, 1int,
{
    match l {
        LayoutView::Stack(c) => spec_stack_boxes(c.elements, d, x, y),
        LayoutView::FlexRow(c) => {
            let n = c.elements.len() as int;
            let w = c.width.spec_units() as int;
            let s = seq_width_sum(c.elements);
            let space = if w >= s {
                w - s
            } else {
                0
            };
            let start = match c.alignment {
                Alignment::Left => x,
                Alignment::Center => x + space / 2,
                Alignment::Right => x + space,
                Alignment::Justified => x,
            };
            let gap = if c.alignment is Justified && n >= 2 {
                space / (n - 1)
            } else {
                0
            };
            spec_row_boxes(c.elements, d, start, y, gap)
        },
        LayoutView::Text(e) => spec_text_box(e, d, x, y),
        LayoutView::FrozenRow(_) | LayoutView::Ref(_) => (y, Seq::empty(), spec_max(x, y)),
    }
}

/// The geometry of stacked children: each is laid out at the running
/// vertical cursor, which advances to the child's depth.
pub open spec fn spec_stack_boxes(elems: Seq<LayoutView>, d: FontDict, x: int, y: int) -> (
    int,
    Seq<(SpatialBox, ElementView)>,
    int,
)
    decreases elems, 0int,
{
    if elems.len() == 0 {
        (y, Seq::empty(), spec_max(x, y))
    } else {
        let first = spec_boxes(elems.first(), d, x, y);
        let rest = spec_stack_boxes(elems.drop_first(), d, x, first.0);
        (rest.0, first.1 + rest.1, spec_max(first.2, rest.2))
    }
}

/// The geometry of a row's children: each is laid out at the running
/// horizontal cursor, which advances by the child's width plus the
/// inter-child gap; the row's depth is the deepest child's.
pub open spec fn spec_row_boxes(elems: Seq<LayoutView>, d: FontDict, x: int, y: int, gap: int) -> (
    int,
    Seq<(SpatialBox, ElementView)>,
    int,
)
    decreases elems, 0int,
{
    if elems.len() == 0 {
        (y, Seq::empty(), spec_max(x, y))
    } else {
        let first = spec_boxes(elems.first(), d, x, y);
        let nx = x + elems.first().spec_width().spec_units() + gap;
        let rest = spec_row_boxes(elems.drop_first(), d, nx, y, gap);
        (spec_max(first.0, rest.0), first.1 + rest.1, spec_max(spec_max(first.2, rest.2), nx))
    }
}

/// The geometry walk never goes up or left: the depth is at least the
/// starting height, and the largest coordinate dominates the start corner
/// and the depth.
pub proof fn lemma_boxes_bounds(l: LayoutView, d: FontDict, x: int, y: int)
    requires
        x >= 0,
        y >= 0,
    ensures
        spec_boxes(l, d, x, y).0 >= y,
        spec_boxes(l, d, x, y).2 >= x,
        spec_boxes(l, d, x, y).2 >= y,
        spec_boxes(l, d, x, y).2 >= spec_boxes(l, d, x, y).0,
    decreases l, 1int,
{
    match l {
        LayoutView::Stack(c) => {
            lemma_stack_boxes_bounds(c.elements, d, x, y);
        },
        LayoutView::FlexRow(c) => {
            let n = c.elements.len() as int;
            let w = c.width.spec_units() as int;
            let s = seq_width_sum(c.elements);
            let space = if w >= s {
                w - s
            } else {
                0
            };
            let start = match c.alignment {
                Alignment::Left => x,
                Alignment::Center => x + space / 2,
                Alignment::Right => x + space,
                Alignment::Justified => x,
            };
            let gap = if c.alignment is Justified && n >= 2 {
                space / (n - 1)
            } else {
                0
            };
            assert(space / 2 >= 0);
            assert(gap >= 0) by {
                if c.alignment is Justified && n >= 2 {
                    assert(space / (n - 1) >= 0);
                }
            }
            lemma_row_boxes_bounds(c.elements, d, start, y, gap);
        },
        LayoutView::Text(_) => {},
        LayoutView::FrozenRow(_) | LayoutView::Ref(_) => {},
    }
}

/// Bounds of the stacked-children walk.
pub proof fn lemma_stack_boxes_bounds(elems: Seq<LayoutView>, d: FontDict, x: int, y: int)
    requires
        x >= 0,
        y >= 0,
    ensures
        spec_stack_boxes(elems, d, x, y).0 >= y,
        spec_stack_boxes(elems, d, x, y).2 >= x,
        spec_stack_boxes(elems, d, x, y).2 >= y,
        spec_stack_boxes(elems, d, x, y).2 >= spec_stack_boxes(elems, d, x, y).0,
    decreases elems, 0int,
{
    if elems.len() > 0 {
        lemma_boxes_bounds(elems.first(), d, x, y);
        lemma_stack_boxes_bounds(elems.drop_first(), d, x, spec_boxes(elems.first(), d, x, y).0);
    }
}

/// Bounds of the row-children walk, for a non-negative gap.
pub proof fn lemma_row_boxes_bounds(elems: Seq<LayoutView>, d: FontDict, x: int, y: int, gap: int)
    requires
        x >= 0,
        y >= 0,
        gap >= 0,
    ensures
        spec_row_boxes(elems, d, x, y, gap).0 >= y,
        spec_row_boxes(elems, d, x, y, gap).2 >= x,
        spec_row_boxes(elems, d, x, y, gap).2 >= y,
        spec_row_boxes(elems, d, x, y, gap).2 >= spec_row_boxes(elems, d, x, y, gap).0,
    decreases elems, 0int,
{
    if elems.len() > 0 {
        lemma_boxes_bounds(elems.first(), d, x, y);
        let nx = x + elems.first().spec_width().spec_units() + gap;
        lemma_row_boxes_bounds(elems.drop_first(), d, nx, y, gap);
    }
}

impl Layout {
    /// Walk the normalized tree and append one absolutely positioned box
    /// per text leaf to `out`; returns the depth where the content ends.
    #[verifier::rlimit(50)]
    fn compute_textbox_positions(
        &self,
        out: &mut Vec<(SpatialBox, Element)>,
        top_left: Point,
        font_dict: &FontDict,
    ) -> (dep: u32)
        requires
            self@.is_instantiated(),
            self@.is_bounded(),
            self@.frozen_free(),
            self@.fonts_ok(*font_dict),
            spec_boxes(self@, *font_dict, top_left.x as int, top_left.y as int).2 <= u32::MAX,
        ensures
            dep == spec_boxes(self@, *font_dict, top_left.x as int, top_left.y as int).0,
            box_views(final(out)@) == box_views(old(out)@) + spec_boxes(
                self@,
                *font_dict,
                top_left.x as int,
                top_left.y as int,
            ).1,
        decreases self,
    {
        let ghost d = *font_dict;
        let ghost x0 = top_left.x as int;
        let ghost y0 = top_left.y as int;
        let ghost total = spec_boxes(self@, d, x0, y0);
        match self {
            Layout::Text(e) => {
                let tw = e.text_width.get_fixed_unchecked();
                let h = font_dict.height_of(&e.font);
                proof {
                    assert(total.2 == spec_max(x0 + tw, y0 + h));
                }
                let x2 = top_left.x + tw;
                let y2 = top_left.y + h;
                let bx = SpatialBox { top_left, bottom_right: Point { x: x2, y: y2 } };
                let ghost before = out@;
                out.push((bx, e.duplicate()));
                proof {
                    assert(box_views(out@) =~= box_views(before) + total.1);
                }
                y2
            },
            Layout::Stack(c) => {
                let ghost kids = c@.elements;
                proof {
                    assert(c@.elements == layout_views(c.elements@));
                    assert(kids.skip(0) =~= kids);
                    assert(box_views(out@) + total.1 =~= box_views(out@) + total.1);
                }
                let mut cur = top_left;
                let mut dep = top_left.y;
                let mut i: usize = 0;
                #[verifier::loop_isolation(false)]
                while i < c.elements.len()
                    invariant
                        i <= c.elements@.len(),
                        cur.x == top_left.x,
                        dep == cur.y,
                        total.0 == spec_stack_boxes(kids.skip(i as int), d, x0, cur.y as int).0,
                        box_views(old(out)@) + total.1 == box_views(out@) + spec_stack_boxes(
                            kids.skip(i as int),
                            d,
                            x0,
                            cur.y as int,
                        ).1,
                        total.2 >= spec_stack_boxes(kids.skip(i as int), d, x0, cur.y as int).2,
                    decreases c.elements@.len() - i,
                {
                    let ghost rem = kids.skip(i as int);
                    proof {
                        assert(decreases_to!(c => c.elements));
                        assert(decreases_to!(c.elements => c.elements@[i as int]));
                        assert(kids[i as int] == c.elements@[i as int]@);
                        assert(rem.first() == kids[i as int]);
                        assert(rem.drop_first() =~= kids.skip(i as int + 1));
                        lemma_boxes_bounds(kids[i as int], d, x0, cur.y as int);
                        lemma_stack_boxes_bounds(
                            rem.drop_first(),
                            d,
                            x0,
                            spec_boxes(kids[i as int], d, x0, cur.y as int).0,
                        );
                    }
                    let child_dep = c.elements[i].compute_textbox_positions(out, cur, font_dict);
                    proof {
                        let first = spec_boxes(kids[i as int], d, x0, cur.y as int);
                        let rest = spec_stack_boxes(kids.skip(i as int + 1), d, x0, first.0);
                        assert(spec_stack_boxes(rem, d, x0, cur.y as int).1 == first.1 + rest.1);
                        assert(box_views(out@) + rest.1 =~= (box_views(out@) + rest.1));
                    }
                    cur = cur.move_y_to(child_dep);
                    dep = child_dep;
                    i = i + 1;
                }
                proof {
                    assert(kids.skip(i as int) =~= Seq::<LayoutView>::empty());
                    assert(spec_stack_boxes(kids.skip(i as int), d, x0, cur.y as int).1
                        == Seq::<(SpatialBox, ElementView)>::empty());
                    assert(box_views(out@) + Seq::<(SpatialBox, ElementView)>::empty()
                        =~= box_views(out@));
                }
                dep
            },
            Layout::FlexRow(c) => {
                let ghost kids = c@.elements;
                let n = c.elements.len();
                let w = c.width.get_fixed_unchecked();
                proof {
                    assert(c@.elements == layout_views(c.elements@));
                    lemma_width_sum_prefix(kids, 0);
                }
                let mut sum: u64 = 0;
                let mut i: usize = 0;
                #[verifier::loop_isolation(false)]
                while i < n
                    invariant
                        i <= c.elements@.len(),
                        n == c.elements@.len(),
                        sum <= w as u64 ==> sum == seq_width_sum(kids.take(i as int)),
                        sum > w as u64 ==> seq_width_sum(kids) > w,
                        sum <= w as u64 + u32::MAX as u64,
                    decreases c.elements@.len() - i,
                {
                    proof {
                        assert(kids[i as int] == c.elements@[i as int]@);
                        lemma_fixed_width(kids[i as int]);
                        lemma_width_sum_take_step(kids, i as int);
                    }
                    let wi = c.elements[i].width().get_fixed_unchecked();
                    if sum <= w as u64 {
                        sum = sum + (wi as u64);
                        proof {
                            if sum > w as u64 {
                                lemma_width_sum_take_bound(kids, i as int + 1);
                            }
                        }
                    }
                    i = i + 1;
                }
                proof {
                    assert(kids.take(n as int) =~= kids);
                }
                let space: u32 = if sum <= w as u64 {
                    w - (sum as u32)
                } else {
                    0
                };
                let ghost s = seq_width_sum(kids);
                let ghost spec_space: int = if w as int >= s {
                    w - s
                } else {
                    0
                };
                proof {
                    assert(space == spec_space);
                }
                let gap: u32 = match c.alignment {
                    Alignment::Justified => {
                        if n >= 2 {
                            ((space as u64) / ((n - 1) as u64)) as u32
                        } else {
                            0
                        }
                    },
                    _ => 0,
                };
                let ghost gap_spec: int = if c@.alignment is Justified && kids.len() >= 2 {
                    spec_space / (kids.len() - 1)
                } else {
                    0
                };
                let ghost start_spec: int = match c@.alignment {
                    Alignment::Left => x0,
                    Alignment::Center => x0 + spec_space / 2,
                    Alignment::Right => x0 + spec_space,
                    Alignment::Justified => x0,
                };
                proof {
                    assert(n == kids.len());
                    assert(c.alignment == c@.alignment);
                    if c@.alignment is Justified && kids.len() >= 2 {
                        assert((space as u64) / ((n - 1) as u64) == spec_space / (kids.len() - 1));
                        assert(gap as int == gap_spec);
                    } else {
                        assert(gap as int == gap_spec);
                    }
                    lemma_row_boxes_bounds(kids, d, start_spec, y0, gap as int);
                    assert(total == spec_row_boxes(kids, d, start_spec, y0, gap as int));
                    assert(total.2 >= start_spec);
                }
                let start_x: u32 = match c.alignment {
                    Alignment::Left => top_left.x,
                    Alignment::Center => top_left.x + space / 2,
                    Alignment::Right => top_left.x + space,
                    Alignment::Justified => top_left.x,
                };
                let mut cur = Point { x: start_x, y: top_left.y };
                let mut dep = top_left.y;
                let mut i: usize = 0;
                proof {
                    assert(kids.skip(0) =~= kids);
                }
                #[verifier::loop_isolation(false)]
                while i < c.elements.len()
                    invariant
                        i <= c.elements@.len(),
                        cur.y == top_left.y,
                        dep >= top_left.y,
                        total.0 == spec_max(
                            dep as int,
                            spec_row_boxes(kids.skip(i as int), d, cur.x as int, y0, gap as int).0,
                        ),
                        box_views(old(out)@) + total.1 == box_views(out@) + spec_row_boxes(
                            kids.skip(i as int),
                            d,
                            cur.x as int,
                            y0,
                            gap as int,
                        ).1,
                        total.2 >= spec_row_boxes(
                            kids.skip(i as int),
                            d,
                            cur.x as int,
                            y0,
                            gap as int,
                        ).2,
                    decreases c.elements@.len() - i,
                {
                    let ghost rem = kids.skip(i as int);
                    proof {
                        assert(decreases_to!(c => c.elements));
                        assert(decreases_to!(c.elements => c.elements@[i as int]));
                        assert(kids[i as int] == c.elements@[i as int]@);
                        assert(rem.first() == kids[i as int]);
                        assert(rem.drop_first() =~= kids.skip(i as int + 1));
                        lemma_fixed_width(kids[i as int]);
                        lemma_boxes_bounds(kids[i as int], d, cur.x as int, y0);
                    }
                    let child_dep = c.elements[i].compute_textbox_positions(out, cur, font_dict);
                    let wi = c.elements[i].width().get_fixed_unchecked();
                    proof {
                        let first = spec_boxes(kids[i as int], d, cur.x as int, y0);
                        let nx = cur.x as int + wi + gap;
                        let rest = spec_row_boxes(kids.skip(i as int + 1), d, nx, y0, gap as int);
                        assert(spec_row_boxes(rem, d, cur.x as int, y0, gap as int).1 == first.1
                            + rest.1);
                        assert(spec_row_boxes(rem, d, cur.x as int, y0, gap as int).2 >= nx);
                        assert(box_views(out@) + rest.1 =~= (box_views(out@) + rest.1));
                    }
                    cur = Point { x: cur.x + wi + gap, y: cur.y };
                    dep = if child_dep >= dep {
                        child_dep
                    } else {
                        dep
                    };
                    i = i + 1;
                }
                proof {
                    assert(kids.skip(i as int) =~= Seq::<LayoutView>::empty());
                    assert(spec_row_boxes(kids.skip(i as int), d, cur.x as int, y0, gap as int).1
                        == Seq::<(SpatialBox, ElementView)>::empty());
                    assert(box_views(out@) + Seq::<(SpatialBox, ElementView)>::empty()
                        =~= box_views(out@));
                }
                dep
            },
            Layout::FrozenRow(_) => {
                proof {
                    assert(false);
                }
                top_left.y
            },
            Layout::Ref(_) => {
                proof {
                    assert(false);
                }
                top_left.y
            },
        }
    }

    /// Lay the normalized tree out at horizontal origin 0 and the given
    /// vertical offset: the depth where the content ends and one positioned
    /// box per text leaf, in order.  A tree that still holds placeholders,
    /// unresolved widths or frozen rows cannot be laid out.
    pub fn compute_boxes(&self, height_offset: u32, font_dict: &FontDict) -> (r: Result<
        (u32, Vec<(SpatialBox, Element)>),
        LayoutError,
    >)
        requires
            self@.fonts_ok(*font_dict),
            spec_boxes(self@, *font_dict, 0, height_offset as int).2 <= u32::MAX,
        ensures
            self@.is_instantiated() && self@.is_bounded() && self@.frozen_free() ==> (r matches Ok(
                p,
            ) && p.0 == spec_boxes(self@, *font_dict, 0, height_offset as int).0 && box_views(
                p.1@,
            ) == spec_boxes(self@, *font_dict, 0, height_offset as int).1),
            !(self@.is_instantiated() && self@.is_bounded() && self@.frozen_free()) ==> r == Err::<
                (u32, Vec<(SpatialBox, Element)>),
                LayoutError,
            >(LayoutError::UnboundedGeometry),
    {
        if !self.is_instantiated() || !self.is_bounded() || !self.frozen_free() {
            return Err(LayoutError::UnboundedGeometry);
        }
        let mut out: Vec<(SpatialBox, Element)> = Vec::new();
        let top_left = Point::new(0, height_offset);
        let dep = self.compute_textbox_positions(&mut out, top_left, font_dict);
        proof {
            assert(box_views(Seq::<(SpatialBox, Element)>::empty()) + spec_boxes(
                self@,
                *font_dict,
                0,
                height_offset as int,
            ).1 =~= spec_boxes(self@, *font_dict, 0, height_offset as int).1);
        }
        Ok((dep, out))
    }
}

/// For a justified row with at least two children whose summed width fits
/// its resolved width, the geometry walk's inter-child gap is the largest
/// uniform gap that fits: the sum of the child widths plus the total
/// inter-child gap reaches the row's width up to less than one gap quantum
/// (for two children, up to one unit of integer rounding).
pub proof fn lemma_justified_row_fills_width(c: ContainerView)
    requires
        c.alignment is Justified,
        c.elements.len() >= 2,
        seq_width_sum(c.elements) <= c.width.spec_units(),
    ensures
        ({
            let w = c.width.spec_units() as int;
            let s = seq_width_sum(c.elements);
            let n1 = c.elements.len() - 1;
            let gap = (w - s) / n1 as int;
            s + n1 * gap <= w && w < s + n1 * (gap + 1)
        }),
{
    let w = c.width.spec_units() as int;
    let s = seq_width_sum(c.elements);
    let n1 = c.elements.len() - 1;
    let gap = (w - s) / (n1 as int);
    vstd::arithmetic::div_mod::lemma_fundamental_div_mod(w - s, n1 as int);
    vstd::arithmetic::div_mod::lemma_mod_bound(w - s, n1 as int);
    assert(w - s == (n1 as int) * gap + (w - s) % (n1 as int));
    assert((n1 as int) * (gap + 1) == (n1 as int) * gap + n1) by (nonlinear_arith);
}

/// Every box the geometry walk emits lies horizontally within the walk's
/// largest coordinate.
pub proof fn lemma_boxes_in_peak(l: LayoutView, d: FontDict, x: int, y: int)
    requires
        0 <= x,
        0 <= y,
    ensures
        forall|i: int|
            0 <= i < spec_boxes(l, d, x, y).1.len() ==> (#[trigger] spec_boxes(
                l,
                d,
                x,
                y,
            ).1[i]).0.top_left.x <= spec_boxes(l, d, x, y).2 && spec_boxes(
                l,
                d,
                x,
                y,
            ).1[i].0.bottom_right.x <= spec_boxes(l, d, x, y).2,
    decreases l, 1int,
{
    let total = spec_boxes(l, d, x, y);
    match l {
        LayoutView::Stack(c) => {
            lemma_stack_boxes_in_peak(c.elements, d, x, y);
            let inner = spec_stack_boxes(c.elements, d, x, y);
            assert(total == inner);
            assert forall|i: int| 0 <= i < total.1.len() implies (#[trigger] total.1[i]).0.top_left.x <= total.2 && total.1[i].0.bottom_right.x <= total.2 by {
                assert(total.1[i] == inner.1[i]);
            }
        },
        LayoutView::FlexRow(c) => {
            let n = c.elements.len() as int;
            let w = c.width.spec_units() as int;
            let s = seq_width_sum(c.elements);
            let space = if w >= s {
                w - s
            } else {
                0
            };
            let off = match c.alignment {
                Alignment::Left => 0int,
                Alignment::Center => space / 2,
                Alignment::Right => space,
                Alignment::Justified => 0int,
            };
            let gap = if c.alignment is Justified && n >= 2 {
                space / (n - 1)
            } else {
                0
            };
            assert(space / 2 >= 0);
            assert(gap >= 0) by {
                if c.alignment is Justified && n >= 2 {
                    assert(space / (n - 1) >= 0);
                }
            }
            lemma_row_boxes_in_peak(c.elements, d, x + off, y, gap);
            let inner = spec_row_boxes(c.elements, d, x + off, y, gap);
            assert(total == inner);
            assert forall|i: int| 0 <= i < total.1.len() implies (#[trigger] total.1[i]).0.top_left.x <= total.2 && total.1[i].0.bottom_right.x <= total.2 by {
                assert(total.1[i] == inner.1[i]);
            }
        },
        LayoutView::Text(e) => {
            let b = total.1[0].0;
            let tw = e.text_width.spec_units() as int;
            assert(b.top_left.x == x as u32);
            assert(b.bottom_right.x == (x + tw) as u32);
            lemma_cast_u32_le(x);
            lemma_cast_u32_le(x + tw);
        },
        LayoutView::FrozenRow(_) | LayoutView::Ref(_) => {},
    }
}

/// Truncating a non-negative integer to 32 bits never enlarges it.
pub proof fn lemma_cast_u32_le(v: int)
    requires
        v >= 0,
    ensures
        v as u32 <= v,
{
    if v > u32::MAX {
        assert(v as u32 <= u32::MAX);
    }
}

/// Peak coverage for stacked children.
pub proof fn lemma_stack_boxes_in_peak(elems: Seq<LayoutView>, d: FontDict, x: int, y: int)
    requires
        0 <= x,
        0 <= y,
    ensures
        forall|i: int|
            0 <= i < spec_stack_boxes(elems, d, x, y).1.len() ==> (#[trigger] spec_stack_boxes(
                elems,
                d,
                x,
                y,
            ).1[i]).0.top_left.x <= spec_stack_boxes(elems, d, x, y).2 && spec_stack_boxes(
                elems,
                d,
                x,
                y,
            ).1[i].0.bottom_right.x <= spec_stack_boxes(elems, d, x, y).2,
    decreases elems, 0int,
{
    if elems.len() > 0 {
        let first = spec_boxes(elems.first(), d, x, y);
        lemma_boxes_in_peak(elems.first(), d, x, y);
        lemma_boxes_bounds(elems.first(), d, x, y);
        lemma_stack_boxes_in_peak(elems.drop_first(), d, x, first.0);
        let rest = spec_stack_boxes(elems.drop_first(), d, x, first.0);
        assert forall|i: int|
            0 <= i < spec_stack_boxes(elems, d, x, y).1.len() implies (#[trigger] spec_stack_boxes(
            elems,
            d,
            x,
            y,
        ).1[i]).0.top_left.x <= spec_stack_boxes(elems, d, x, y).2 && spec_stack_boxes(
            elems,
            d,
            x,
            y,
        ).1[i].0.bottom_right.x <= spec_stack_boxes(elems, d, x, y).2 by {
            if i < first.1.len() {
                assert(spec_stack_boxes(elems, d, x, y).1[i] == first.1[i]);
            } else {
                assert(spec_stack_boxes(elems, d, x, y).1[i] == rest.1[i - first.1.len()]);
            }
        }
    }
}

/// Peak coverage for row children.
pub proof fn lemma_row_boxes_in_peak(elems: Seq<LayoutView>, d: FontDict, x: int, y: int, gap: int)
    requires
        0 <= x,
        0 <= y,
        gap >= 0,
    ensures
        forall|i: int|
            0 <= i < spec_row_boxes(elems, d, x, y, gap).1.len() ==> (#[trigger] spec_row_boxes(
                elems,
                d,
                x,
                y,
                gap,
            ).1[i]).0.top_left.x <= spec_row_boxes(elems, d, x, y, gap).2 && spec_row_boxes(
                elems,
                d,
                x,
                y,
                gap,
            ).1[i].0.bottom_right.x <= spec_row_boxes(elems, d, x, y, gap).2,
    decreases elems, 0int,
{
    if elems.len() > 0 {
        let first = spec_boxes(elems.first(), d, x, y);
        let nx = x + elems.first().spec_width().spec_units() + gap;
        lemma_boxes_in_peak(elems.first(), d, x, y);
        lemma_row_boxes_in_peak(elems.drop_first(), d, nx, y, gap);
        let rest = spec_row_boxes(elems.drop_first(), d, nx, y, gap);
        assert forall|i: int|
            0 <= i < spec_row_boxes(elems, d, x, y, gap).1.len() implies (
        #[trigger] spec_row_boxes(elems, d, x, y, gap).1[i]).0.top_left.x <= spec_row_boxes(
            elems,
            d,
            x,
            y,
            gap,
        ).2 && spec_row_boxes(elems, d, x, y, gap).1[i].0.bottom_right.x <= spec_row_boxes(
            elems,
            d,
            x,
            y,
            gap,
        ).2 by {
            if i < first.1.len() {
                assert(spec_row_boxes(elems, d, x, y, gap).1[i] == first.1[i]);
            } else {
                assert(spec_row_boxes(elems, d, x, y, gap).1[i] == rest.1[i - first.1.len()]);
            }
        }
    }
}

/// The models of a sequence of positioned boxes.
pub open spec fn box_views(q: Seq<(SpatialBox, Element)>) -> Seq<(SpatialBox, ElementView)> {
    Seq::new(
        q.len(),
        |i: int|
            if 0 <= i < q.len() {
                (q[i].0, q[i].1@)
            } else {
                (q[0].0, q[0].1@)
            },
    )
}

/// The models of a sequence of containers.
pub open spec fn container_views(s: Seq<Container>) -> Seq<ContainerView> {
    Seq::new(
        s.len(),
        |i: int|
            if 0 <= i < s.len() {
                s[i]@
            } else {
                spec_empty_container()
            },
    )
}

/// The models of a sequence of font references.
pub open spec fn font_views(s: Seq<FontRef>) -> Seq<FontView> {
    Seq::new(
        s.len(),
        |i: int|
            if 0 <= i < s.len() {
                s[i]@
            } else {
                FontView {
                    name: Seq::empty(),
                    size: 0,
                    weight: crate::font::FontWeight::Medium,
                    style: crate::font::FontStyle::Normal,
                    source: crate::font::FontSource::System,
                }
            },
    )
}

} // verus!
