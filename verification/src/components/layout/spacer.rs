//! The flexible gap.

use crate::geometry::{Orientation, ProposalSize, Size, StretchAxis};
use crate::layout::proposal::{
    install_measure_provider, note_reported_axis, set_layout_priority,
};
use crate::layout::subview::MeasureTarget;
use crate::layout::widget::{
    MeasureProvider, TreeView, WidgetKind, WidgetLayout, WidgetTree,
};
use crate::single::{Single, ZERO};
use vstd::prelude::*;

verus! {

/// A gap of `min_length` along a stack's main axis, and nothing across it.
pub open spec fn gap(stack_axis: Option<Orientation>, min_length: Single) -> Size {
    let zero = Single { bits: ZERO };
    match stack_axis {
        Some(Orientation::Vertical) => Size { width: zero, height: min_length },
        Some(Orientation::Horizontal) => Size { width: min_length, height: zero },
        None => Size { width: zero, height: zero },
    }
}

impl TreeView {
    /// The layout that sizes a gap hosted in `w`: the nearest container, from
    /// `w` on upwards, that does not hand a main-axis claim on.
    pub open spec fn gap_owner(self, w: Option<usize>) -> Option<usize>
        decreases
                if w is Some {
                    self.bound - self.rank[w->0 as int]
                } else {
                    0
                },
        when self.wf() && (w matches Some(widget) ==> self.has(widget))
    {
        match w {
            None => None,
            Some(widget) => {
                if self.at(widget).is_container() && !self.at(widget).container().relays_main_axis {
                    Some(widget)
                } else {
                    proof {
                        assert(self.has_home(widget));
                        if let Some(parent) = self.at(widget).parent {
                            assert(self.at(parent).links(widget));
                            assert(self.rank[parent as int] > self.rank[widget as int]);
                            assert(self.has(parent));
                        }
                    }
                    self.gap_owner(self.at(widget).parent)
                }
            },
        }
    }

    /// The tree once `w` is a gap.
    pub open spec fn with_gap(self, w: usize, min_length: Single) -> TreeView {
        self.with_marker(
            w,
            WidgetLayout {
                measure_provider: Some(MeasureProvider::Spacer(min_length)),
                reported_axis: Some(StretchAxis::MainAxis),
                priority: Some(i32::MIN),
                ..self.marker(w)
            },
        )
    }

    /// What the gap `w` answers to a probe: its minimum length along the main
    /// axis of the stack that owns it, nothing where no stack does.
    pub open spec fn gap_size(self, w: usize, min_length: Single) -> Size {
        match self.gap_owner(self.at(w).parent) {
            Some(owner) => gap(self.at(owner).container().stack_axis, min_length),
            None => gap(None, min_length),
        }
    }
}

/// The default layout priority of a gap, from
/// `waterui_layout::spacer::Spacer::DEFAULT_LAYOUT_PRIORITY`: the lowest there
/// is.
#[verifier::external_body]
fn default_layout_priority() -> (r: i32)
    ensures
        r == i32::MIN,
{
    waterui_layout::spacer::Spacer::DEFAULT_LAYOUT_PRIORITY
}

/// The answer of the gap `widget` to a measurement probe.
pub fn spacer_size(tree: &WidgetTree, widget: usize, min_length: Single) -> (r: Size)
    requires
        tree@.wf(),
        tree@.has(widget),
    ensures
        r == tree@.gap_size(widget, min_length),
{
    let zero: Single = Single { bits: ZERO };
    let mut node: Option<usize> = tree.widgets[widget].parent;
    proof {
        assert(tree@.has_home(widget));
    }
    loop
        invariant
            tree@.wf(),
            node matches Some(n) ==> tree@.has(n),
            tree@.gap_owner(node) == tree@.gap_owner(tree@.at(widget).parent),
            zero == (Single { bits: ZERO }),
        decreases (if node is Some { tree@.bound - tree@.rank[node->0 as int] } else { 0 }),
    {
        let parent: usize = match node {
            Some(parent) => parent,
            None => {
                return Size { width: zero, height: zero };
            },
        };
        if let WidgetKind::Container(state) = &tree.widgets[parent].kind {
            if !state.relays_main_axis {
                return match state.stack_axis {
                    Some(Orientation::Vertical) => Size { width: zero, height: min_length },
                    Some(Orientation::Horizontal) => Size { width: min_length, height: zero },
                    None => Size { width: zero, height: zero },
                };
            }
        }
        proof {
            assert(tree@.has_home(parent));
            if let Some(up) = tree@.at(parent).parent {
                assert(tree@.at(up).links(parent));
            }
        }
        node = tree.widgets[parent].parent;
    }
}

/// Makes `widget` a gap of the given minimum length: it answers probes as one,
/// claims the main axis, and is squeezed before any other content.
pub fn render_spacer(tree: &mut WidgetTree, widget: usize, min_length: Single)
    requires
        old(tree)@.wf(),
        old(tree)@.has(widget),
    ensures
        final(tree)@ == old(tree)@.with_gap(widget, min_length),
        final(tree)@.wf(),
{
    install_measure_provider(tree, widget, MeasureProvider::Spacer(min_length));
    note_reported_axis(tree, widget, StretchAxis::MainAxis);
    set_layout_priority(tree, widget, default_layout_priority());
    assert(tree@.widgets =~= old(tree)@.with_gap(widget, min_length).widgets);
}

/// A gap takes up its length along the stack's main axis and nothing across it,
/// and nothing at all outside of a stack.
pub proof fn lemma_gap_lies_along_the_stack(min_length: Single)
    ensures
        gap(Some(Orientation::Vertical), min_length).height == min_length,
        gap(Some(Orientation::Vertical), min_length).width.bits == ZERO,
        gap(Some(Orientation::Horizontal), min_length).width == min_length,
        gap(Some(Orientation::Horizontal), min_length).height.bits == ZERO,
        gap(None, min_length).width.bits == ZERO,
        gap(None, min_length).height.bits == ZERO,
{
}

/// The nearest container that lays a gap out for itself sizes it; one that hands
/// the claim on, and anything else in between, makes no difference.
pub proof fn lemma_nearest_stack_sizes_the_gap(
    t: TreeView,
    w: usize,
    parent: usize,
    min_length: Single,
)
    requires
        t.wf(),
        t.has(w),
        t.at(w).parent == Some(parent),
    ensures
        t.at(parent).is_container() && !t.at(parent).container().relays_main_axis ==> t.gap_size(
            w,
            min_length,
        ) == gap(t.at(parent).container().stack_axis, min_length),
        !t.at(parent).is_container() || t.at(parent).container().relays_main_axis ==> t.gap_size(
            w,
            min_length,
        ) == t.gap_size(parent, min_length),
{
    assert(t.has_home(w));
    assert(t.has_home(parent));
    reveal_with_fuel(TreeView::gap_owner, 2);
}

/// A gap that nothing holds takes up nothing.
pub proof fn lemma_free_gap_is_empty(t: TreeView, w: usize, min_length: Single)
    requires
        t.wf(),
        t.has(w),
        t.at(w).parent is None,
    ensures
        t.gap_size(w, min_length).width.bits == ZERO,
        t.gap_size(w, min_length).height.bits == ZERO,
{
}

/// A gap answers every probe with its own size, whatever is offered; it claims
/// the main axis of its stack; and no content has a lower priority.
pub proof fn lemma_gap_answers_as_one(
    t: TreeView,
    answers: Seq<Option<StretchAxis>>,
    w: usize,
    min_length: Single,
    proposal: ProposalSize,
    fallback: StretchAxis,
    other: i32,
)
    requires
        t.has(w),
        t.with_gap(w, min_length).wf(),
    ensures
        ({
            let u = t.with_gap(w, min_length);
            &&& u.probe(answers, w, proposal, fallback).1 matches MeasureTarget::Spacer { size }
                && size == u.gap_size(w, min_length)
            &&& t.marker(w).axis_provider is None ==> u.axis_of(answers, w) == Some(
                StretchAxis::MainAxis,
            )
            &&& u.priority_of(w) matches Some(priority) && priority <= other
        }),
{
}

} // verus!
