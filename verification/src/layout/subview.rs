//! How widgets answer the measurement probes of the layout engine.
//!
//! A probe descends through transparent hosts to the one widget that answers
//! it: a gap, a container, or a native leaf. [`measure_view`] finds that
//! widget and the probe it has to answer; [`MeasurePlan::answer`] folds the
//! margins of the hosts on the way back into the answer.

use crate::components::layout::spacer::spacer_size;
use crate::geometry::{
    last_guide, lemma_last_guide_counts, DimensionsView, HorizontalAlignment, ProposalSize, Size, StretchAxis, VerticalAlignment,
    ViewDimensions,
};
use crate::layout::proposal::{query_axis, query_priority, shrink_proposal, shrunk, EngineAxes};
use crate::layout::widget::{Margins, MeasureProvider, TreeView, WidgetKind, WidgetTree};
use crate::single::{
    lemma_constants, lemma_small_wholes_add, lemma_truncated_is_the_whole_part, lemma_whole_is_finite,
    saturate_i32, Single, ZERO,
};
use vstd::arithmetic::power2::pow2;
use vstd::prelude::*;

verus! {

/// A widget with the stretch axis recorded when it was rendered, as the layout
/// engine sees it.
#[derive(Clone, Copy, Debug)]
pub struct GtkSubView {
    pub widget: usize,
    pub stretch_axis: StretchAxis,
}

/// A child that reports one size to every probe.
#[derive(Clone, Copy, Debug)]
pub struct FixedSizeSubView {
    pub size: Size,
    pub stretch_axis: StretchAxis,
}

impl FixedSizeSubView {
    pub fn new(size: Size, stretch_axis: StretchAxis) -> (r: FixedSizeSubView)
        ensures
            r == (FixedSizeSubView { size, stretch_axis }),
    {
        FixedSizeSubView { size, stretch_axis }
    }

    /// The fixed size, whatever is proposed.
    pub fn measure(&self, _proposal: ProposalSize) -> (r: ViewDimensions)
        ensures
            r@ == DimensionsView::plain(self.size),
    {
        ViewDimensions::new(self.size)
    }

    pub fn stretch_axis(&self) -> (r: StretchAxis)
        ensures
            r == self.stretch_axis,
    {
        self.stretch_axis
    }

    pub fn priority(&self) -> (r: i32)
        ensures
            r == 0,
    {
        0
    }
}

/// The widget that answers a probe, and the probe that reaches it.
#[derive(Clone, Copy, Debug)]
pub enum MeasureTarget {
    /// A gap, which answers with this size.
    Spacer { size: Size },
    /// A container, whose layout is measured under a content-box proposal.
    Container { widget: usize, proposal: ProposalSize },
    /// A native widget, which is measured under a margin-box proposal.
    Leaf { widget: usize, proposal: ProposalSize, axis: StretchAxis },
}

/// The way of a probe: the widgets whose margins surround the answer, the
/// outermost first, and what answers.
#[derive(Debug)]
pub struct MeasurePlan {
    pub hops: Vec<usize>,
    pub target: MeasureTarget,
}

/// What the toolkit reports for a native widget: its extents and baselines,
/// the width measured without a constraint and the height for a given width.
#[derive(Clone, Copy, Debug)]
pub struct LeafExtents {
    pub min_width: i32,
    pub natural_width: i32,
    pub min_height: i32,
    pub natural_height: i32,
    pub min_baseline: i32,
    pub natural_baseline: i32,
}

impl Margins {
    /// The margins of the horizontal axis, in points.
    pub open spec fn across(self) -> Single {
        Single::sum(Single::of_int(self.start as int), Single::of_int(self.end as int))
    }

    /// The margins of the vertical axis, in points.
    pub open spec fn down(self) -> Single {
        Single::sum(Single::of_int(self.top as int), Single::of_int(self.bottom as int))
    }
}

/// The size and the guides of a content box in the terms of the margin box
/// around it.
pub open spec fn surrounded(margins: Margins, inner: DimensionsView) -> DimensionsView {
    DimensionsView {
        size: Size {
            width: Single::sum(inner.size.width, margins.across()),
            height: Single::sum(inner.size.height, margins.down()),
        },
        horizontal_guides: inner.horizontal_guides.map_values(
            |guide: (HorizontalAlignment, Single)|
                (guide.0, Single::sum(guide.1, Single::of_int(margins.start as int))),
        ),
        vertical_guides: inner.vertical_guides.map_values(
            |guide: (VerticalAlignment, Single)|
                (guide.0, Single::sum(guide.1, Single::of_int(margins.top as int))),
        ),
    }
}

impl TreeView {
    /// The child whose answer `w` gives as its own, if it is transparent.
    pub open spec fn measured_child(self, w: usize) -> Option<usize> {
        match self.marker(w).measure_provider {
            Some(MeasureProvider::Content(content)) => Some(content),
            Some(MeasureProvider::FirstChild) => self.first_child(w),
            _ => None,
        }
    }

    /// The probe inside the margins of `w`.
    pub open spec fn inner_probe(self, w: usize, proposal: ProposalSize) -> ProposalSize {
        let margins = self.at(w).margins;
        shrunk(proposal, margins.across(), margins.down())
    }

    /// The axis that a probe of `w` carries on: what `w` reports, else what
    /// the probe came with.
    pub open spec fn resolved_axis(
        self,
        answers: Seq<Option<StretchAxis>>,
        w: usize,
        fallback: StretchAxis,
    ) -> StretchAxis {
        self.axis_of(answers, w).unwrap_or(fallback)
    }

    /// The priority that `w` is laid out with.
    pub open spec fn effective_priority(self, w: usize) -> i32 {
        self.priority_of(w).unwrap_or(0)
    }

    /// The way of a probe that arrives at `w`.
    pub open spec fn probe(
        self,
        answers: Seq<Option<StretchAxis>>,
        w: usize,
        proposal: ProposalSize,
        fallback: StretchAxis,
    ) -> (Seq<usize>, MeasureTarget)
        decreases self.rank[w as int],
        when self.wf() && self.has(w)
    {
        let inner = self.inner_probe(w, proposal);
        let axis = self.resolved_axis(answers, w, fallback);
        match self.measured_child(w) {
            Some(child) => {
                proof {
                    if self.marker(w).measure_provider == Some(MeasureProvider::FirstChild) {
                        assert(self.at(w).children@.contains(child));
                    }
                    assert(self.at(w).links(child));
                }
                let (hops, target) = self.probe(answers, child, inner, axis);
                (seq![w] + hops, target)
            },
            None => match self.marker(w).measure_provider {
                Some(MeasureProvider::Spacer(min_length)) => (
                    seq![w],
                    MeasureTarget::Spacer { size: self.gap_size(w, min_length) },
                ),
                _ => if self.at(w).is_container() {
                    (seq![w], MeasureTarget::Container { widget: w, proposal: inner })
                } else {
                    (seq![], MeasureTarget::Leaf { widget: w, proposal, axis })
                },
            },
        }
    }

    /// `inner` with the margins of `hops` around it, the last ones innermost.
    pub open spec fn folded(self, hops: Seq<usize>, inner: DimensionsView) -> DimensionsView
        decreases hops.len(),
    {
        if hops.len() == 0 {
            inner
        } else {
            self.folded(hops.drop_last(), surrounded(self.at(hops.last()).margins, inner))
        }
    }
}

/// Finds what answers a probe of `widget`. `fallback_axis` is the stretch
/// claim that the probe carries where no widget on its way reports one.
pub fn measure_view(
    tree: &WidgetTree,
    engine: &EngineAxes,
    widget: usize,
    proposal: ProposalSize,
    fallback_axis: StretchAxis,
) -> (r: MeasurePlan)
    requires
        tree@.wf(),
        tree@.has(widget),
        engine.answers@.len() == tree@.widgets.len(),
    ensures
        (r.hops@, r.target) == tree@.probe(engine.answers@, widget, proposal, fallback_axis),
        forall|i: int| 0 <= i < r.hops@.len() ==> tree@.has(#[trigger] r.hops@[i]),
{
    let mut hops: Vec<usize> = Vec::new();
    let mut w: usize = widget;
    let mut probe: ProposalSize = proposal;
    let mut axis: StretchAxis = fallback_axis;
    let ghost whole = tree@.probe(engine.answers@, widget, proposal, fallback_axis);
    assert(Seq::<usize>::empty() + whole.0 =~= whole.0);
    loop
        invariant
            tree@.wf(),
            tree@.has(w),
            engine.answers@.len() == tree@.widgets.len(),
            whole == tree@.probe(engine.answers@, widget, proposal, fallback_axis),
            ({
                let rest = tree@.probe(engine.answers@, w, probe, axis);
                whole.0 == hops@ + rest.0 && whole.1 == rest.1
            }),
            forall|i: int| 0 <= i < hops@.len() ==> tree@.has(#[trigger] hops@[i]),
        decreases tree@.rank[w as int],
    {
        let margins: Margins = tree.widgets[w].margins;
        let across: Single = Single::from_i32(margins.start).plus(Single::from_i32(margins.end));
        let down: Single = Single::from_i32(margins.top).plus(Single::from_i32(margins.bottom));
        let inner: ProposalSize = shrink_proposal(probe, across, down);
        let resolved: StretchAxis = match query_axis(tree, engine, w) {
            Some(reported) => reported,
            None => axis,
        };
        let provider: Option<MeasureProvider> = tree.widgets[w].layout.measure_provider;
        let child: Option<usize> = match provider {
            Some(MeasureProvider::Content(content)) => Some(content),
            Some(MeasureProvider::FirstChild) => {
                if tree.widgets[w].children.len() == 0 {
                    None
                } else {
                    Some(tree.widgets[w].children[0])
                }
            },
            _ => None,
        };
        match child {
            Some(child) => {
                proof {
                    if provider == Some(MeasureProvider::FirstChild) {
                        assert(tree@.at(w).children@.contains(child));
                    }
                    assert(tree@.at(w).links(child));
                    let rest = tree@.probe(engine.answers@, child, inner, resolved);
                    assert(hops@ + (seq![w] + rest.0) =~= hops@.push(w) + rest.0);
                }
                hops.push(w);
                w = child;
                probe = inner;
                axis = resolved;
            },
            None => {
                let container: bool = match &tree.widgets[w].kind {
                    WidgetKind::Container(_) => true,
                    _ => false,
                };
                let ghost before = hops@;
                let target: MeasureTarget = match provider {
                    Some(MeasureProvider::Spacer(min_length)) => {
                        hops.push(w);
                        MeasureTarget::Spacer { size: spacer_size(tree, w, min_length) }
                    },
                    _ => {
                        if container {
                            hops.push(w);
                            MeasureTarget::Container { widget: w, proposal: inner }
                        } else {
                            MeasureTarget::Leaf { widget: w, proposal: probe, axis: resolved }
                        }
                    },
                };
                assert(before + seq![w] =~= before.push(w));
                assert(before + Seq::<usize>::empty() =~= before);
                return MeasurePlan { hops, target };
            },
        }
    }
}

/// The dimensions of a content box in the terms of the margin box around it.
fn surround(margins: Margins, inner: &ViewDimensions) -> (r: ViewDimensions)
    ensures
        r@ == surrounded(margins, inner@),
{
    let start: Single = Single::from_i32(margins.start);
    let top: Single = Single::from_i32(margins.top);
    let across: Single = start.plus(Single::from_i32(margins.end));
    let down: Single = top.plus(Single::from_i32(margins.bottom));
    let mut r: ViewDimensions = ViewDimensions::new(
        Size { width: inner.size.width.plus(across), height: inner.size.height.plus(down) },
    );
    let ghost wanted = surrounded(margins, inner@);
    let mut i: usize = 0;
    while i < inner.horizontal_guides.len()
        invariant
            i <= inner.horizontal_guides.len(),
            start == Single::of_int(margins.start as int),
            wanted == surrounded(margins, inner@),
            r@ == (DimensionsView {
                size: wanted.size,
                horizontal_guides: wanted.horizontal_guides.take(i as int),
                vertical_guides: seq![],
            }),
        decreases inner.horizontal_guides.len() - i,
    {
        let (alignment, value) = inner.horizontal_guides[i];
        r.set_horizontal(alignment, value.plus(start));
        assert(wanted.horizontal_guides.take(i + 1) =~= wanted.horizontal_guides.take(
            i as int,
        ).push(wanted.horizontal_guides[i as int]));
        i = i + 1;
    }
    assert(wanted.horizontal_guides.take(i as int) =~= wanted.horizontal_guides);
    let mut j: usize = 0;
    while j < inner.vertical_guides.len()
        invariant
            j <= inner.vertical_guides.len(),
            top == Single::of_int(margins.top as int),
            wanted == surrounded(margins, inner@),
            r@ == (DimensionsView {
                size: wanted.size,
                horizontal_guides: wanted.horizontal_guides,
                vertical_guides: wanted.vertical_guides.take(j as int),
            }),
        decreases inner.vertical_guides.len() - j,
    {
        let (alignment, value) = inner.vertical_guides[j];
        r.set_vertical(alignment, value.plus(top));
        assert(wanted.vertical_guides.take(j + 1) =~= wanted.vertical_guides.take(j as int).push(
            wanted.vertical_guides[j as int],
        ));
        j = j + 1;
    }
    assert(wanted.vertical_guides.take(j as int) =~= wanted.vertical_guides);
    r
}

impl MeasurePlan {
    /// The answer to the probe, once its target has answered with `inner`.
    pub fn answer(&self, tree: &WidgetTree, inner: ViewDimensions) -> (r: ViewDimensions)
        requires
            forall|i: int| 0 <= i < self.hops@.len() ==> tree@.has(#[trigger] self.hops@[i]),
        ensures
            r@ == tree@.folded(self.hops@, inner@),
    {
        let mut r: ViewDimensions = inner;
        let mut i: usize = self.hops.len();
        assert(self.hops@.take(i as int) =~= self.hops@);
        while i > 0
            invariant
                i <= self.hops@.len(),
                forall|i: int| 0 <= i < self.hops@.len() ==> tree@.has(#[trigger] self.hops@[i]),
                tree@.folded(self.hops@.take(i as int), r@) == tree@.folded(self.hops@, inner@),
            decreases i,
        {
            let w: usize = self.hops[i - 1];
            assert(self.hops@.take(i as int).drop_last() =~= self.hops@.take(i - 1));
            assert(self.hops@.take(i as int).last() == w);
            r = surround(tree.widgets[w].margins, &r);
            i = i - 1;
        }
        r
    }
}

/// The constraint a toolkit measurement sees for a proposed extent: only a
/// finite one is a constraint, and `-1` is none.
pub open spec fn for_size(extent: Option<Single>) -> i32 {
    match extent {
        Some(value) => if value.finite() {
            saturate_i32(value.truncated())
        } else {
            -1i32
        },
        None => -1i32,
    }
}

/// The constraint a toolkit measurement sees for a proposed extent.
pub fn proposal_extent_to_for_size(extent: Option<Single>) -> (r: i32)
    ensures
        r == for_size(extent),
{
    match extent {
        Some(value) => {
            if value.is_finite() {
                value.trunc_i32()
            } else {
                -1
            }
        },
        None => -1,
    }
}

/// The extent a native widget answers on one axis: its natural extent within
/// the proposal, the whole proposal where it stretches, and never less than
/// its minimum.
pub open spec fn leaf_extent(
    proposed: Option<Single>,
    fills: bool,
    minimum: i32,
    natural: i32,
) -> Single {
    let wanted = match proposed {
        Some(offer) => if fills {
            Single::larger(offer, Single { bits: ZERO })
        } else {
            Single::smaller(offer, Single::of_int(natural as int))
        },
        None => Single::of_int(natural as int),
    };
    let floor = if minimum < natural {
        minimum
    } else {
        natural
    };
    Single::larger(wanted, Single::of_int(floor as int))
}

/// The baselines a native widget reports, as vertical guides.
pub open spec fn baseline_guides(first: i32, last: i32) -> Seq<(VerticalAlignment, Single)> {
    let lower = if last >= 0 {
        seq![(VerticalAlignment::LastBaseline, Single::of_int(last as int))]
    } else {
        seq![]
    };
    if first >= 0 {
        seq![(VerticalAlignment::FirstBaseline, Single::of_int(first as int))] + lower
    } else {
        lower
    }
}

/// What a native widget answers to a probe.
pub open spec fn leaf_dimensions(
    proposal: ProposalSize,
    axis: StretchAxis,
    extents: LeafExtents,
) -> DimensionsView {
    DimensionsView {
        size: Size {
            width: leaf_extent(
                proposal.width,
                axis.fills_width(),
                extents.min_width,
                extents.natural_width,
            ),
            height: leaf_extent(
                proposal.height,
                axis.fills_height(),
                extents.min_height,
                extents.natural_height,
            ),
        },
        horizontal_guides: seq![],
        vertical_guides: baseline_guides(extents.min_baseline, extents.natural_baseline),
    }
}

fn leaf_axis(proposed: Option<Single>, fills: bool, minimum: i32, natural: i32) -> (r: Single)
    ensures
        r == leaf_extent(proposed, fills, minimum, natural),
{
    let mut extent: Single = match proposed {
        Some(offer) => offer.min(Single::from_i32(natural)),
        None => Single::from_i32(natural),
    };
    if fills {
        if let Some(offer) = proposed {
            extent = offer.max(Single { bits: ZERO });
        }
    }
    let floor: i32 = if minimum < natural { minimum } else { natural };
    extent.max(Single::from_i32(floor))
}

/// The answer of a native widget that the toolkit measured as `extents`, the
/// height under the width constraint of [`proposal_extent_to_for_size`].
pub fn leaf_measure(proposal: ProposalSize, stretch_axis: StretchAxis, extents: LeafExtents) -> (r:
    ViewDimensions)
    ensures
        r@ == leaf_dimensions(proposal, stretch_axis, extents),
{
    let width: Single = leaf_axis(
        proposal.width,
        stretch_axis.stretches_horizontal(),
        extents.min_width,
        extents.natural_width,
    );
    let height: Single = leaf_axis(
        proposal.height,
        stretch_axis.stretches_vertical(),
        extents.min_height,
        extents.natural_height,
    );
    let mut dimensions: ViewDimensions = ViewDimensions::new(Size { width, height });
    if extents.min_baseline >= 0 {
        dimensions.set_vertical(
            VerticalAlignment::FirstBaseline,
            Single::from_i32(extents.min_baseline),
        );
    }
    if extents.natural_baseline >= 0 {
        dimensions.set_vertical(
            VerticalAlignment::LastBaseline,
            Single::from_i32(extents.natural_baseline),
        );
    }
    assert(dimensions@.vertical_guides =~= baseline_guides(
        extents.min_baseline,
        extents.natural_baseline,
    ));
    dimensions
}

impl GtkSubView {
    pub fn new(widget: usize, stretch_axis: StretchAxis) -> (r: GtkSubView)
        ensures
            r == (GtkSubView { widget, stretch_axis }),
    {
        GtkSubView { widget, stretch_axis }
    }

    pub fn widget(&self) -> (r: usize)
        ensures
            r == self.widget,
    {
        self.widget
    }

    /// The way of a probe of this child.
    pub fn measure(&self, tree: &WidgetTree, engine: &EngineAxes, proposal: ProposalSize) -> (r:
        MeasurePlan)
        requires
            tree@.wf(),
            tree@.has(self.widget),
            engine.answers@.len() == tree@.widgets.len(),
        ensures
            (r.hops@, r.target) == tree@.probe(
                engine.answers@,
                self.widget,
                proposal,
                self.stretch_axis,
            ),
            forall|i: int| 0 <= i < r.hops@.len() ==> tree@.has(#[trigger] r.hops@[i]),
    {
        measure_view(tree, engine, self.widget, proposal, self.stretch_axis)
    }

    /// The live stretch axis, else the one recorded with this child.
    pub fn stretch_axis(&self, tree: &WidgetTree, engine: &EngineAxes) -> (r: StretchAxis)
        requires
            tree@.wf(),
            tree@.has(self.widget),
            engine.answers@.len() == tree@.widgets.len(),
        ensures
            r == tree@.resolved_axis(engine.answers@, self.widget, self.stretch_axis),
    {
        match query_axis(tree, engine, self.widget) {
            Some(axis) => axis,
            None => self.stretch_axis,
        }
    }

    /// The layout priority, zero where none is reported.
    pub fn priority(&self, tree: &WidgetTree) -> (r: i32)
        requires
            tree@.wf(),
            tree@.has(self.widget),
        ensures
            r == tree@.effective_priority(self.widget),
    {
        match query_priority(tree, self.widget) {
            Some(priority) => priority,
            None => 0,
        }
    }
}

/// A native widget that stretches and is offered an extent that is not below its
/// least one answers exactly the offer, be it above or below the natural extent;
/// an endless offer it fills without end.
pub proof fn lemma_stretching_leaf_fills_the_offer(offer: Single, minimum: i32, natural: i32)
    requires
        !offer.nan(),
        !offer.negative(),
        offer.value() >= Single::of_int(minimum as int).value(),
        offer.value() >= Single::of_int(natural as int).value() || minimum < natural,
    ensures
        leaf_extent(Some(offer), true, minimum, natural) == offer,
{
    lemma_constants();
    lemma_whole_is_finite(minimum as int);
    lemma_whole_is_finite(natural as int);
}

/// What a native widget answers to an offer, one that stretches or not. One that
/// stretches fills the offer and one that does not takes no more than it and no
/// more than its natural extent. Neither takes less than its least extent, and
/// only that makes it take more than the offer.
pub proof fn lemma_leaf_answers_within_the_offer(
    offer: Single,
    fills: bool,
    minimum: i32,
    natural: i32,
)
    requires
        !offer.nan(),
    ensures
        ({
            let least = Single::of_int(if minimum < natural {
                minimum as int
            } else {
                natural as int
            }).value();
            let most = Single::of_int(natural as int).value();
            let r = leaf_extent(Some(offer), fills, minimum, natural).value();
            &&& !leaf_extent(Some(offer), fills, minimum, natural).nan()
            &&& r >= least
            &&& offer.value() >= 0 && offer.value() >= least ==> r <= offer.value()
            &&& fills && offer.value() >= 0 ==> r >= offer.value()
            &&& fills && offer.value() < 0 && least <= 0 ==> r == 0
            &&& fills && offer.value() <= least && least >= 0 ==> r == least
            &&& !fills && most >= least ==> r <= most
            &&& !fills && least <= offer.value() <= most ==> r == offer.value()
            &&& !fills && offer.value() >= most >= least ==> r == most
            &&& !fills && offer.value() <= least <= most ==> r == least
        }),
{
    lemma_constants();
    lemma_whole_is_finite(minimum as int);
    lemma_whole_is_finite(natural as int);
}

/// The axis seen from the side.
pub open spec fn turned_axis(axis: StretchAxis) -> StretchAxis {
    match axis {
        StretchAxis::Horizontal => StretchAxis::Vertical,
        StretchAxis::Vertical => StretchAxis::Horizontal,
        other => other,
    }
}

/// The width of a native widget is decided by its widths and its height by its
/// heights, in the same way: a widget turned on its side answers the same,
/// turned on its side.
pub proof fn lemma_leaf_axes_are_alike(
    proposal: ProposalSize,
    axis: StretchAxis,
    extents: LeafExtents,
    other_baselines: LeafExtents,
)
    ensures
        ({
            let turned = leaf_dimensions(
                ProposalSize { width: proposal.height, height: proposal.width },
                turned_axis(axis),
                LeafExtents {
                    min_width: extents.min_height,
                    natural_width: extents.natural_height,
                    min_height: extents.min_width,
                    natural_height: extents.natural_width,
                    ..other_baselines
                },
            ).size;
            let upright = leaf_dimensions(proposal, axis, extents).size;
            turned.width == upright.height && turned.height == upright.width
        }),
        leaf_dimensions(proposal, axis, extents).size.width == leaf_extent(
            proposal.width,
            axis is Horizontal || axis is Both,
            extents.min_width,
            extents.natural_width,
        ),
{
}

/// The baselines that the toolkit reports are the guides of the answer, each
/// under its own name; one that is not reported is no guide, and there are no
/// others.
pub proof fn lemma_leaf_states_its_baselines(
    proposal: ProposalSize,
    axis: StretchAxis,
    extents: LeafExtents,
    other: VerticalAlignment,
)
    ensures
        ({
            let answer = leaf_dimensions(proposal, axis, extents);
            &&& extents.min_baseline >= 0 ==> last_guide(
                answer.vertical_guides,
                VerticalAlignment::FirstBaseline,
            ) == Some(Single::of_int(extents.min_baseline as int))
            &&& extents.min_baseline < 0 ==> last_guide(
                answer.vertical_guides,
                VerticalAlignment::FirstBaseline,
            ) is None
            &&& extents.natural_baseline >= 0 ==> last_guide(
                answer.vertical_guides,
                VerticalAlignment::LastBaseline,
            ) == Some(Single::of_int(extents.natural_baseline as int))
            &&& extents.natural_baseline < 0 ==> last_guide(
                answer.vertical_guides,
                VerticalAlignment::LastBaseline,
            ) is None
            &&& !(other is FirstBaseline) && !(other is LastBaseline) ==> last_guide(
                answer.vertical_guides,
                other,
            ) is None
            &&& answer.horizontal_guides.len() == 0
        }),
{
    let first = VerticalAlignment::FirstBaseline;
    let last = VerticalAlignment::LastBaseline;
    let a = Single::of_int(extents.min_baseline as int);
    let b = Single::of_int(extents.natural_baseline as int);
    let none = Seq::<(VerticalAlignment, Single)>::empty();
    let guides = baseline_guides(extents.min_baseline, extents.natural_baseline);
    let upper = if extents.min_baseline >= 0 {
        none.push((first, a))
    } else {
        none
    };
    let both = if extents.natural_baseline >= 0 {
        upper.push((last, b))
    } else {
        upper
    };
    assert(guides =~= both);
    lemma_last_guide_counts(none, first, a, last);
    lemma_last_guide_counts(none, first, a, first);
    lemma_last_guide_counts(none, first, a, other);
    lemma_last_guide_counts(upper, last, b, first);
    lemma_last_guide_counts(upper, last, b, last);
    lemma_last_guide_counts(upper, last, b, other);
}

/// The toolkit is constrained by the whole points of a finite offer, and by
/// nothing where there is none.
pub proof fn lemma_constraint_is_the_whole_offer(offer: Single)
    ensures
        for_size(None) == -1,
        !offer.finite() ==> for_size(Some(offer)) == -1,
        offer.finite() && !offer.negative() ==> for_size(Some(offer)) >= 0 && for_size(Some(offer))
            * pow2(149) <= offer.value(),
        offer.finite() && !offer.negative() && for_size(Some(offer)) < i32::MAX ==> offer.value()
            < (for_size(Some(offer)) + 1) * pow2(149),
{
    lemma_truncated_is_the_whole_part(offer);
    vstd::arithmetic::power2::lemma_pow2_pos(149);
    let d = pow2(149) as int;
    let r = offer.truncated();
    if !offer.negative() {
        assert(r >= 0) by (nonlinear_arith)
            requires
                0 <= r * d,
                d > 0,
        ;
        if r > i32::MAX {
            assert(i32::MAX * d <= r * d) by (nonlinear_arith)
                requires
                    r >= i32::MAX,
                    d > 0,
            ;
        }
    }
}

/// Margins surround an answer: the horizontal ones make it wider and the
/// vertical ones higher, and each guide moves by what lies before it. All of it
/// is exact for whole numbers of at most 24 bits.
pub proof fn lemma_margins_surround_whole_numbers(
    margins: Margins,
    inner: DimensionsView,
    width: int,
    height: int,
    i: int,
    guide: int,
)
    requires
        -0x100_0000 < margins.start < 0x100_0000,
        -0x100_0000 < margins.end < 0x100_0000,
        -0x100_0000 < margins.top < 0x100_0000,
        -0x100_0000 < margins.bottom < 0x100_0000,
        -0x100_0000 < margins.start + margins.end < 0x100_0000,
        -0x100_0000 < margins.top + margins.bottom < 0x100_0000,
        -0x100_0000 < width < 0x100_0000,
        -0x100_0000 < height < 0x100_0000,
        -0x100_0000 < guide < 0x100_0000,
        inner.size.width == Single::of_int(width),
        inner.size.height == Single::of_int(height),
    ensures
        surrounded(margins, inner).size.width == Single::of_int(width + margins.start + margins.end),
        surrounded(margins, inner).size.height == Single::of_int(
            height + margins.top + margins.bottom,
        ),
        surrounded(margins, inner).horizontal_guides.len() == inner.horizontal_guides.len(),
        surrounded(margins, inner).vertical_guides.len() == inner.vertical_guides.len(),
        0 <= i < inner.horizontal_guides.len() && inner.horizontal_guides[i].1 == Single::of_int(
            guide,
        ) ==> surrounded(margins, inner).horizontal_guides[i] == (
            inner.horizontal_guides[i].0,
            Single::of_int(guide + margins.start),
        ),
        0 <= i < inner.vertical_guides.len() && inner.vertical_guides[i].1 == Single::of_int(guide)
            ==> surrounded(margins, inner).vertical_guides[i] == (
            inner.vertical_guides[i].0,
            Single::of_int(guide + margins.top),
        ),
{
    lemma_small_wholes_add(margins.start as int, margins.end as int);
    lemma_small_wholes_add(margins.top as int, margins.bottom as int);
    lemma_small_wholes_add(width, margins.start + margins.end);
    lemma_small_wholes_add(height, margins.top + margins.bottom);
    lemma_small_wholes_add(guide, margins.start as int);
    lemma_small_wholes_add(guide, margins.top as int);
}

/// What answers a probe where the way ends. A native widget answers for its
/// margin box: it is asked as the probe came, and nothing surrounds its answer.
/// A container and a gap answer for their content box, and their own margins
/// surround the answer.
pub proof fn lemma_probe_ends(
    t: TreeView,
    answers: Seq<Option<StretchAxis>>,
    w: usize,
    proposal: ProposalSize,
    fallback: StretchAxis,
)
    requires
        t.wf(),
        t.has(w),
    ensures
        t.marker(w).measure_provider is None && !t.at(w).is_container() ==> ({
            let (hops, target) = t.probe(answers, w, proposal, fallback);
            &&& hops.len() == 0
            &&& target matches MeasureTarget::Leaf { widget, proposal: asked, axis } && widget == w
                && asked == proposal && match t.axis_of(answers, w) {
                Some(reported) => axis == reported,
                None => axis == fallback,
            }
        }),
        t.marker(w).measure_provider is None && t.at(w).is_container() ==> ({
            let (hops, target) = t.probe(answers, w, proposal, fallback);
            &&& hops == seq![w]
            &&& target matches MeasureTarget::Container { widget, proposal: asked } && widget == w
                && asked == shrunk(
                proposal,
                t.at(w).margins.across(),
                t.at(w).margins.down(),
            )
        }),
        t.marker(w).measure_provider matches Some(MeasureProvider::Spacer(length)) ==> ({
            let (hops, target) = t.probe(answers, w, proposal, fallback);
            &&& hops == seq![w]
            &&& target matches MeasureTarget::Spacer { size } && size == t.gap_size(w, length)
        }),
        t.marker(w).measure_provider == Some(MeasureProvider::FirstChild)
            && t.at(w).children@.len() == 0 && !t.at(w).is_container() ==> t.probe(
            answers,
            w,
            proposal,
            fallback,
        ).0.len() == 0,
{
}

/// A widget is laid out with the axis and the priority that it reports; where it
/// reports none, with the axis that the probe came with and with no priority.
pub proof fn lemma_reports_come_first(
    t: TreeView,
    answers: Seq<Option<StretchAxis>>,
    w: usize,
    fallback: StretchAxis,
)
    ensures
        t.axis_of(answers, w) matches Some(axis) ==> t.resolved_axis(answers, w, fallback) == axis,
        t.axis_of(answers, w) is None ==> t.resolved_axis(answers, w, fallback) == fallback,
        t.priority_of(w) matches Some(priority) ==> t.effective_priority(w) == priority,
        t.priority_of(w) is None ==> t.effective_priority(w) == 0,
{
}

/// Without an offer, or with one that is no number, a native widget answers its
/// natural extent, or its least one where that is more; one that stretches takes
/// what is no number for nothing.
pub proof fn lemma_leaf_answers_without_an_offer(
    offer: Single,
    fills: bool,
    minimum: i32,
    natural: i32,
)
    requires
        offer.nan(),
    ensures
        ({
            let least = Single::of_int(if minimum < natural {
                minimum as int
            } else {
                natural as int
            }).value();
            let most = Single::of_int(natural as int).value();
            let free = leaf_extent(None, fills, minimum, natural).value();
            let r = leaf_extent(Some(offer), fills, minimum, natural).value();
            &&& free >= most && free >= least && (free == most || free == least)
            &&& !fills ==> r == free
            &&& fills ==> r >= 0 && r >= least && (r == 0 || r == least)
        }),
{
    lemma_constants();
    lemma_whole_is_finite(minimum as int);
    lemma_whole_is_finite(natural as int);
}

/// The margins of an axis are its two margins together, and an answer grows by
/// them, whatever numbers they are.
pub proof fn lemma_any_margins_surround(margins: Margins, inner: DimensionsView, i: int)
    ensures
        margins.across() == Single::sum(
            Single::of_int(margins.start as int),
            Single::of_int(margins.end as int),
        ),
        margins.down() == Single::sum(
            Single::of_int(margins.top as int),
            Single::of_int(margins.bottom as int),
        ),
        surrounded(margins, inner).size.width == Single::sum(inner.size.width, margins.across()),
        surrounded(margins, inner).size.height == Single::sum(inner.size.height, margins.down()),
        0 <= i < inner.horizontal_guides.len() ==> surrounded(margins, inner).horizontal_guides[i].1
            == Single::sum(inner.horizontal_guides[i].1, Single::of_int(margins.start as int)),
        0 <= i < inner.vertical_guides.len() ==> surrounded(margins, inner).vertical_guides[i].1
            == Single::sum(inner.vertical_guides[i].1, Single::of_int(margins.top as int)),
{
}

} // verus!
