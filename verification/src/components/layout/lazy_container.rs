//! A stack whose children are made as they scroll into view.
//!
//! The stack is shown by a native list. The list itself has no gap between its
//! rows, so the stack's spacing becomes a margin on each row; and it fills the
//! axis across the one it scrolls on, which it claims for itself.

use crate::geometry::{HorizontalAlignment, Orientation, StretchAxis, VerticalAlignment};
use crate::layout::proposal::{install_axis_provider, set_scroll_axes};
use crate::layout::widget::{
    AxisProvider, Margins, NaturalSize, TreeView, Widget, WidgetKind, WidgetLayout, WidgetTree,
};
use crate::single::{
    lemma_constants, lemma_truncated_is_the_whole_part, saturate_i32, Single, ZERO,
};
use vstd::arithmetic::power2::{lemma_pow2_pos, pow2};
use vstd::prelude::*;

verus! {

/// The stacks that can be shown lazily.
#[allow(inconsistent_fields)]
#[derive(Clone, Copy, Debug, PartialEq, Eq, Structural)]
pub enum LazyStackAxis {
    Vertical { spacing: Single, alignment: HorizontalAlignment },
    Horizontal { spacing: Single, alignment: VerticalAlignment },
}

/// Where a widget lies in spare space.
#[derive(Clone, Copy, Debug, PartialEq, Eq, Structural)]
pub enum Align {
    Start,
    End,
    Center,
}

/// How a lazy stack is shown.
#[derive(Clone, Copy, Debug, PartialEq, Eq, Structural)]
pub struct LazyPlan {
    pub orientation: Orientation,
    /// The gap between rows, in whole pixels.
    pub spacing: i32,
    /// The axes on which the rows scroll.
    pub scrolls_horizontally: bool,
    pub scrolls_vertically: bool,
    /// Where the list lies across its axis.
    pub cross_alignment: Align,
    /// The axis that the list fills.
    pub fill_axis: StretchAxis,
}

/// Where a vertical stack of an alignment lies.
pub open spec fn horizontal_align(alignment: HorizontalAlignment) -> Align {
    match alignment {
        HorizontalAlignment::Leading => Align::Start,
        HorizontalAlignment::Trailing => Align::End,
        HorizontalAlignment::Center => Align::Center,
    }
}

/// Where a horizontal stack of an alignment lies; baselines have no place of
/// their own and count as the center.
pub open spec fn vertical_align(alignment: VerticalAlignment) -> Align {
    match alignment {
        VerticalAlignment::Top => Align::Start,
        VerticalAlignment::Bottom => Align::End,
        _ => Align::Center,
    }
}

/// Where a vertical stack of an alignment lies.
pub fn gtk_align_from_horizontal(alignment: HorizontalAlignment) -> (r: Align)
    ensures
        r == horizontal_align(alignment),
{
    if alignment == HorizontalAlignment::Leading {
        Align::Start
    } else if alignment == HorizontalAlignment::Trailing {
        Align::End
    } else {
        Align::Center
    }
}

/// Where a horizontal stack of an alignment lies.
pub fn gtk_align_from_vertical(alignment: VerticalAlignment) -> (r: Align)
    ensures
        r == vertical_align(alignment),
{
    if alignment == VerticalAlignment::Top {
        Align::Start
    } else if alignment == VerticalAlignment::Bottom {
        Align::End
    } else {
        Align::Center
    }
}

/// A gap in whole pixels, not below zero.
pub open spec fn gap_pixels(spacing: Single) -> i32 {
    saturate_i32(Single::larger(spacing, Single { bits: ZERO }).truncated())
}

/// How a lazy stack is shown.
pub open spec fn plan_of(axis: LazyStackAxis) -> LazyPlan {
    match axis {
        LazyStackAxis::Vertical { spacing, alignment } => LazyPlan {
            orientation: Orientation::Vertical,
            spacing: gap_pixels(spacing),
            scrolls_horizontally: false,
            scrolls_vertically: true,
            cross_alignment: horizontal_align(alignment),
            fill_axis: StretchAxis::Horizontal,
        },
        LazyStackAxis::Horizontal { spacing, alignment } => LazyPlan {
            orientation: Orientation::Horizontal,
            spacing: gap_pixels(spacing),
            scrolls_horizontally: true,
            scrolls_vertically: false,
            cross_alignment: vertical_align(alignment),
            fill_axis: StretchAxis::Vertical,
        },
    }
}

/// How a lazy stack is shown: its axis, spacing and alignment are those of the
/// layout it was built with.
pub fn lazy_plan(axis: LazyStackAxis) -> (r: LazyPlan)
    ensures
        r == plan_of(axis),
{
    let (orientation, spacing, cross_alignment) = match axis {
        LazyStackAxis::Vertical { spacing, alignment } => (
            Orientation::Vertical,
            spacing,
            gtk_align_from_horizontal(alignment),
        ),
        LazyStackAxis::Horizontal { spacing, alignment } => (
            Orientation::Horizontal,
            spacing,
            gtk_align_from_vertical(alignment),
        ),
    };
    let vertical: bool = orientation == Orientation::Vertical;
    let gap: Single = spacing.max(Single { bits: ZERO });
    LazyPlan {
        orientation,
        spacing: gap.trunc_i32(),
        scrolls_horizontally: !vertical,
        scrolls_vertically: vertical,
        cross_alignment,
        fill_axis: if vertical { StretchAxis::Horizontal } else { StretchAxis::Vertical },
    }
}

/// Adds the list of a lazy stack. It claims the axis that it fills, which the
/// stack cannot know without its children.
pub fn render_lazy(tree: &mut WidgetTree, plan: LazyPlan) -> (r: usize)
    requires
        old(tree)@.wf(),
        old(tree)@.widgets.len() < usize::MAX,
    ensures
        final(tree)@.wf(),
        r == old(tree)@.widgets.len(),
        final(tree)@.widgets.len() == old(tree)@.widgets.len() + 1,
        forall|x: usize| old(tree)@.has(x) ==> (#[trigger] final(tree)@.at(x)) == old(tree)@.at(x),
        final(tree)@.at(r).kind is Plain,
        final(tree)@.at(r).parent is None,
        final(tree)@.at(r).children@.len() == 0,
        final(tree)@.marker(r) == (WidgetLayout {
            axis_provider: Some(AxisProvider::Fixed(plan.fill_axis)),
            ..WidgetLayout::empty()
        }),
        final(tree)@.at(r).margins == (Margins { start: 0, end: 0, top: 0, bottom: 0 }),
        final(tree)@.at(r).visible,
        final(tree)@.at(r).natural == (NaturalSize { width: 0, height: 0 }),
        !final(tree)@.at(r).allocate_queued,
        !final(tree)@.at(r).resize_queued,
        forall|answers: Seq<Option<StretchAxis>>|
            #[trigger] final(tree)@.axis_of(answers, r) == Some(plan.fill_axis),
{
    let ghost t = tree@;
    let list: usize = tree.add_widget(WidgetKind::Plain);
    let ghost added = tree@;
    install_axis_provider(tree, list, AxisProvider::Fixed(plan.fill_axis));
    assert forall|x: usize| t.has(x) implies (#[trigger] tree@.at(x)) == t.at(x) by {
        assert(added.at(x) == t.at(x));
    }
    list
}

/// Whether the contents have `id` at `position`.
pub open spec fn agrees(ids: Seq<i32>, position: u32, id: i32) -> bool {
    position < ids.len() && ids[position as int] == id
}

/// Whether the list and the contents agree on a row: the identifier that the
/// list holds at `position` is the one that the contents have there.
pub fn row_matches(ids: &Vec<i32>, position: u32, id: i32) -> (r: bool)
    ensures
        r == agrees(ids@, position, id),
{
    let index: usize = position as usize;
    index < ids.len() && ids[index] == id
}

/// A change of a list's rows: `removed` rows from `position` on make way for
/// `added` ones.
#[derive(Clone, Copy, Debug, PartialEq, Eq, Structural)]
pub struct RowSplice {
    pub position: usize,
    pub removed: usize,
    pub added: usize,
}

impl RowSplice {
    /// The rows `rows` once `fresh` ones took the place of those removed.
    pub open spec fn applied(self, rows: Seq<i32>, fresh: Seq<i32>) -> Seq<i32> {
        rows.take(self.position as int) + fresh + rows.skip(self.position + self.removed)
    }
}

/// How a list is brought from the rows `current` to `wanted`. A row keeps its
/// place in the list by its identity: what both begin with and what both end
/// with is left alone.
pub fn reconcile(current: &Vec<i32>, wanted: &Vec<i32>) -> (r: RowSplice)
    ensures
        r.position + r.removed <= current@.len(),
        r.position + r.added <= wanted@.len(),
        current@.len() - r.removed == wanted@.len() - r.added,
        r.applied(
            current@,
            wanted@.subrange(r.position as int, r.position + r.added),
        ) == wanted@,
        r.position < current@.len() && r.position < wanted@.len() ==> current@[r.position as int]
            != wanted@[r.position as int],
        r.removed > 0 && r.added > 0 ==> current@[r.position + r.removed - 1]
            != wanted@[r.position + r.added - 1],
{
    let mut position: usize = 0;
    while position < current.len() && position < wanted.len() && current[position]
        == wanted[position]
        invariant
            position <= current@.len(),
            position <= wanted@.len(),
            forall|i: int| 0 <= i < position ==> current@[i] == wanted@[i],
        decreases current@.len() - position,
    {
        position = position + 1;
    }
    let mut kept: usize = 0;
    while kept < current.len() - position && kept < wanted.len() - position
        && current[current.len() - 1 - kept] == wanted[wanted.len() - 1 - kept]
        invariant
            position + kept <= current@.len(),
            position + kept <= wanted@.len(),
            position < current@.len() && position < wanted@.len() ==> current@[position as int]
                != wanted@[position as int],
            forall|i: int| 0 <= i < position ==> current@[i] == wanted@[i],
            forall|i: int|
                current@.len() - kept <= i < current@.len() ==> (#[trigger] current@[i])
                    == wanted@[i - current@.len() + wanted@.len()],
        decreases current@.len() - kept,
    {
        kept = kept + 1;
    }
    let r: RowSplice = RowSplice {
        position,
        removed: current.len() - position - kept,
        added: wanted.len() - position - kept,
    };
    proof {
        let fresh = wanted@.subrange(position as int, position + r.added);
        let made = r.applied(current@, fresh);
        assert(made.len() == wanted@.len());
        assert forall|i: int| 0 <= i < made.len() implies made[i] == wanted@[i] by {
            if i >= position + r.added {
                let k = i - wanted@.len() + current@.len();
                assert(made[i] == current@[k]);
            }
        }
        assert(made =~= wanted@);
    }
    r
}

/// The margins of a row: those it has, with the gap behind it if there is one.
pub open spec fn row_margins(margins: Margins, plan: LazyPlan) -> Margins {
    if plan.spacing > 0 {
        match plan.orientation {
            Orientation::Vertical => Margins { bottom: plan.spacing, ..margins },
            Orientation::Horizontal => Margins { end: plan.spacing, ..margins },
        }
    } else {
        margins
    }
}

impl TreeView {
    /// The tree after `widget` became a row of a lazy stack.
    pub open spec fn bound_row(self, widget: usize, plan: LazyPlan) -> TreeView {
        self.with(
            widget,
            Widget {
                margins: row_margins(self.at(widget).margins, plan),
                layout: WidgetLayout {
                    scroll_axes: Some((plan.scrolls_horizontally, plan.scrolls_vertically)),
                    ..self.marker(widget)
                },
                ..self.at(widget)
            },
        )
    }
}

/// Makes `widget` a row of a lazy stack: it keeps the gap free behind it, and
/// knows that the list scrolls it.
pub fn bind_row(tree: &mut WidgetTree, widget: usize, plan: LazyPlan)
    requires
        old(tree)@.wf(),
        old(tree)@.has(widget),
        row_margins(old(tree)@.at(widget).margins, plan).summable(),
    ensures
        final(tree)@ == old(tree)@.bound_row(widget, plan),
        final(tree)@.wf(),
{
    let margins: Margins = tree.widgets[widget].margins;
    if plan.spacing > 0 {
        let spaced: Margins = match plan.orientation {
            Orientation::Vertical => Margins {
                start: margins.start,
                end: margins.end,
                top: margins.top,
                bottom: plan.spacing,
            },
            Orientation::Horizontal => Margins {
                start: margins.start,
                end: plan.spacing,
                top: margins.top,
                bottom: margins.bottom,
            },
        };
        tree.set_margins(widget, spaced);
    }
    set_scroll_axes(tree, widget, plan.scrolls_horizontally, plan.scrolls_vertically);
    assert(tree@.widgets =~= old(tree)@.bound_row(widget, plan).widgets);
}

/// The list and the contents agree on a row wherever its identifier stands there,
/// and on no other identifier; beyond the contents they agree on none.
pub proof fn lemma_rows_agree_by_identity(ids: Seq<i32>, position: u32, id: i32)
    ensures
        position < ids.len() ==> agrees(ids, position, ids[position as int]),
        agrees(ids, position, id) ==> position < ids.len() && ids[position as int] == id,
{
}

/// A gap in whole pixels is the whole part of the spacing; a spacing below zero,
/// or one that is no number, is no gap.
pub proof fn lemma_gap_is_the_whole_spacing(spacing: Single)
    ensures
        gap_pixels(spacing) >= 0,
        spacing.nan() || spacing.value() <= 0 ==> gap_pixels(spacing) == 0,
        !spacing.nan() && spacing.value() >= 0 ==> gap_pixels(spacing) * pow2(149)
            <= spacing.value(),
        !spacing.nan() && gap_pixels(spacing) < i32::MAX ==> spacing.value() < (gap_pixels(spacing)
            + 1) * pow2(149),
{
    let length = Single::larger(spacing, Single { bits: ZERO });
    let d = pow2(149) as int;
    lemma_pow2_pos(149);
    lemma_constants();
    lemma_truncated_is_the_whole_part(length);
    let r = length.truncated();
    assert(!length.negative());
    assert(r >= 0) by (nonlinear_arith)
        requires
            0 <= r * d,
            d > 0,
    ;
    if length.value() == 0 {
        assert(r == 0) by (nonlinear_arith)
            requires
                0 <= r * d <= 0,
                d > 0,
        ;
    }
    if r > i32::MAX {
        assert(i32::MAX * d <= r * d) by (nonlinear_arith)
            requires
                r >= i32::MAX,
                d > 0,
        ;
    }
}

/// A lazy stack scrolls on its own axis and on no other, and fills the axis
/// across it.
pub proof fn lemma_lazy_stack_scrolls_its_own_axis(axis: LazyStackAxis)
    ensures
        ({
            let plan = plan_of(axis);
            &&& plan.orientation is Vertical <==> axis is Vertical
            &&& plan.scrolls_vertically <==> plan.orientation is Vertical
            &&& plan.scrolls_horizontally <==> plan.orientation is Horizontal
            &&& plan.fill_axis.fills_width() <==> plan.scrolls_vertically
            &&& plan.fill_axis.fills_height() <==> plan.scrolls_horizontally
            &&& match axis {
                LazyStackAxis::Vertical { spacing, .. } => plan.spacing == gap_pixels(spacing),
                LazyStackAxis::Horizontal { spacing, .. } => plan.spacing == gap_pixels(spacing),
            }
        }),
{
}

/// A lazy stack lies at the edge it is aligned to: at the start for a leading or
/// top one, at the end for a trailing or bottom one, and in the center for every
/// other.
pub proof fn lemma_lazy_stack_lies_where_it_is_aligned(
    spacing: Single,
    across: HorizontalAlignment,
    down: VerticalAlignment,
)
    ensures
        ({
            let upright = plan_of(LazyStackAxis::Vertical { spacing, alignment: across });
            let level = plan_of(LazyStackAxis::Horizontal { spacing, alignment: down });
            &&& upright.cross_alignment is Start <==> across is Leading
            &&& upright.cross_alignment is End <==> across is Trailing
            &&& level.cross_alignment is Start <==> down is Top
            &&& level.cross_alignment is End <==> down is Bottom
        }),
{
}

/// A row keeps the gap free behind it, along the stack: below it in a vertical
/// stack, at its end in a horizontal one. Its other margins stay, and all of
/// them where there is no gap.
pub proof fn lemma_row_keeps_the_gap_behind_it(margins: Margins, plan: LazyPlan)
    ensures
        ({
            let after = row_margins(margins, plan);
            &&& after.start == margins.start && after.top == margins.top
            &&& plan.spacing <= 0 ==> after == margins
            &&& plan.spacing > 0 && plan.orientation is Vertical ==> after.bottom == plan.spacing
                && after.end == margins.end
            &&& plan.spacing > 0 && plan.orientation is Horizontal ==> after.end == plan.spacing
                && after.bottom == margins.bottom
        }),
{
}

/// A bound row knows the axis that its list scrolls it on, and nothing of any
/// other widget changes.
pub proof fn lemma_bound_row_is_scrolled(t: TreeView, widget: usize, plan: LazyPlan, x: usize)
    requires
        t.wf(),
        t.has(widget),
        t.bound_row(widget, plan).wf(),
    ensures
        t.bound_row(widget, plan).scroll_axes_of(widget) == Some(
            (plan.scrolls_horizontally, plan.scrolls_vertically),
        ),
        t.bound_row(widget, plan).at(widget).margins == row_margins(t.at(widget).margins, plan),
        t.has(x) && x != widget ==> t.bound_row(widget, plan).at(x) == t.at(x),
        t.bound_row(widget, plan).at(widget) == (Widget {
            margins: t.bound_row(widget, plan).at(widget).margins,
            layout: WidgetLayout {
                scroll_axes: t.bound_row(widget, plan).marker(widget).scroll_axes,
                ..t.marker(widget)
            },
            ..t.at(widget)
        }),
{
}

} // verus!
