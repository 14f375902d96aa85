//! Selected proposals and the live layout answers of widgets.
//!
//! A layout that places its children also selects the proposal each child was
//! measured with. The packet travels on the widgets: a parent delivers it with
//! [`deliver_proposal`], and the marker of the receiver decides what it does
//! there. A packet always travels in the receiver's *margin-box* terms, and
//! each widget retains its *content-box* packet, the margins removed in the
//! same way in which measurement removes them from a probe.
//!
//! The same marker answers for a widget's stretch axis and layout priority.

use crate::geometry::{Orientation, ProposalSize, StretchAxis};
use crate::layout::widget::{
    lemma_replace, AxisProvider, ContainerState, Margins, MeasureProvider, PriorityProvider,
    ProposalSink, TreeView, Widget, WidgetKind, WidgetLayout, WidgetTree,
};
use crate::single::{Single, ZERO};
use vstd::prelude::*;

verus! {

/// Whether two proposals are the same packet, that is, carry the same bits.
pub fn proposals_equal(a: ProposalSize, b: ProposalSize) -> (r: bool)
    ensures
        r == (a == b),
{
    a.width == b.width && a.height == b.height
}

/// `extent` less `margin`, not below zero. An absent or infinite extent, and
/// one that is not a number, is a question and not a length: it stays.
pub open spec fn shrunk_extent(extent: Option<Single>, margin: Single) -> Option<Single> {
    match extent {
        None => None,
        Some(value) => if value.finite() {
            Some(Single::larger(Single::difference(value, margin), Single { bits: ZERO }))
        } else {
            Some(value)
        },
    }
}

/// `proposal` less a margin on each axis.
pub open spec fn shrunk(
    proposal: ProposalSize,
    horizontal: Single,
    vertical: Single,
) -> ProposalSize {
    ProposalSize {
        width: shrunk_extent(proposal.width, horizontal),
        height: shrunk_extent(proposal.height, vertical),
    }
}

/// Removes `margin` from a finite extent and leaves every other extent as it is.
pub fn shrink_extent(extent: Option<Single>, margin: Single) -> (r: Option<Single>)
    ensures
        r == shrunk_extent(extent, margin),
{
    match extent {
        None => None,
        Some(value) => {
            if value.is_finite() {
                Some(value.minus(margin).max(Single { bits: ZERO }))
            } else {
                Some(value)
            }
        },
    }
}

/// Turns margin-box geometry into content-box geometry.
pub fn shrink_proposal(proposal: ProposalSize, horizontal: Single, vertical: Single) -> (r:
    ProposalSize)
    ensures
        r == shrunk(proposal, horizontal, vertical),
{
    ProposalSize::new(
        shrink_extent(proposal.width, horizontal),
        shrink_extent(proposal.height, vertical),
    )
}

/// The offer a scroll owner makes its content: nothing down each scrolling
/// axis, the viewport's extent across each other.
pub open spec fn scroll_packet(
    horizontal: bool,
    vertical: bool,
    width: Single,
    height: Single,
) -> ProposalSize {
    ProposalSize {
        width: if horizontal {
            None
        } else {
            Some(width)
        },
        height: if vertical {
            None
        } else {
            Some(height)
        },
    }
}

/// The offer a scroll owner makes its content.
pub fn scroll_offer(horizontal: bool, vertical: bool, width: Single, height: Single) -> (r:
    ProposalSize)
    ensures
        r == scroll_packet(horizontal, vertical, width, height),
{
    ProposalSize::new(
        if horizontal {
            None
        } else {
            Some(width)
        },
        if vertical {
            None
        } else {
            Some(height)
        },
    )
}

/// The offer a scrolling list makes each row: its extent across the axis it
/// scrolls on, and nothing down that axis.
pub open spec fn row_packet(orientation: Orientation, cross_extent: Single) -> ProposalSize {
    match orientation {
        Orientation::Vertical => ProposalSize { width: Some(cross_extent), height: None },
        Orientation::Horizontal => ProposalSize { width: None, height: Some(cross_extent) },
    }
}

/// The offer a scrolling list makes each row it lays out natively.
pub fn row_offer(orientation: Orientation, cross_extent: Single) -> (r: ProposalSize)
    ensures
        r == row_packet(orientation, cross_extent),
{
    match orientation {
        Orientation::Vertical => ProposalSize::new(Some(cross_extent), None),
        Orientation::Horizontal => ProposalSize::new(None, Some(cross_extent)),
    }
}

impl TreeView {
    /// The scroll annotation of `w`, or of its nearest annotated ancestor.
    pub open spec fn scroll_axes_of(self, w: usize) -> Option<(bool, bool)>
        decreases self.bound - self.rank[w as int],
        when self.wf() && self.has(w)
    {
        match self.marker(w).scroll_axes {
            Some(axes) => Some(axes),
            None => match self.at(w).parent {
                Some(parent) => {
                    proof {
                        assert(self.has_home(w));
                        assert(self.at(parent).links(w));
                    }
                    self.scroll_axes_of(parent)
                },
                None => None,
            },
        }
    }

    /// The priority that `w` reports: the recorded one, else what its provider
    /// answers.
    pub open spec fn priority_of(self, w: usize) -> Option<i32>
        decreases self.rank[w as int],
        when self.wf() && self.has(w)
    {
        let layout = self.marker(w);
        match (layout.priority, layout.priority_provider) {
            (Some(priority), _) => Some(priority),
            (None, Some(PriorityProvider::Content(content))) => {
                proof {
                    assert(self.at(w).links(content));
                }
                Some(self.priority_of(content).unwrap_or(0))
            },
            (None, Some(PriorityProvider::FirstChild)) => match self.first_child(w) {
                Some(child) => {
                    proof {
                        assert(self.at(w).children@.contains(child));
                        assert(self.at(w).links(child));
                    }
                    Some(self.priority_of(child).unwrap_or(0))
                },
                None => Some(0),
            },
            (None, None) => None,
        }
    }
}

impl TreeView {
    /// The tree once `w` is content that scrolls on the given axes.
    pub open spec fn scrolled(self, w: usize, horizontal: bool, vertical: bool) -> TreeView {
        self.with_marker(
            w,
            WidgetLayout { scroll_axes: Some((horizontal, vertical)), ..self.marker(w) },
        )
    }

    /// The tree once `axis` is recorded for `w`.
    pub open spec fn claiming(self, w: usize, axis: StretchAxis) -> TreeView {
        self.with_marker(w, WidgetLayout { reported_axis: Some(axis), ..self.marker(w) })
    }

    /// The tree once `priority` is recorded for `w`.
    pub open spec fn ranking(self, w: usize, priority: i32) -> TreeView {
        self.with_marker(w, WidgetLayout { priority: Some(priority), ..self.marker(w) })
    }

    /// The tree once `w` is transparent to `content`.
    pub open spec fn transparent(self, w: usize, content: usize) -> TreeView {
        self.with_marker(
            w,
            WidgetLayout {
                proposal_sink: Some(ProposalSink::Forward(content)),
                measure_provider: Some(MeasureProvider::Content(content)),
                axis_provider: Some(AxisProvider::Content(content)),
                priority_provider: Some(PriorityProvider::Content(content)),
                ..self.marker(w)
            },
        )
    }
}

/// Marks `widget` as content that scrolls on the given axes.
pub fn set_scroll_axes(tree: &mut WidgetTree, widget: usize, horizontal: bool, vertical: bool)
    requires
        old(tree)@.wf(),
        old(tree)@.has(widget),
    ensures
        final(tree)@ == old(tree)@.scrolled(widget, horizontal, vertical),
        final(tree)@.wf(),
{
    let ghost layout = WidgetLayout {
        scroll_axes: Some((horizontal, vertical)),
        ..tree@.marker(widget)
    };
    proof {
        lemma_replace(tree@, widget, Widget { layout, ..tree@.at(widget) });
    }
    tree.widgets[widget].layout.scroll_axes = Some((horizontal, vertical));
}

/// The scroll owner's annotation on `widget` or the nearest ancestor that
/// carries one.
pub fn scroll_axes_for(tree: &WidgetTree, widget: usize) -> (r: Option<(bool, bool)>)
    requires
        tree@.wf(),
        tree@.has(widget),
    ensures
        r == tree@.scroll_axes_of(widget),
{
    let mut current: usize = widget;
    loop
        invariant
            tree@.wf(),
            tree@.has(current),
            tree@.scroll_axes_of(current) == tree@.scroll_axes_of(widget),
        decreases tree@.bound - tree@.rank[current as int],
    {
        if let Some(axes) = tree.widgets[current].layout.scroll_axes {
            return Some(axes);
        }
        match tree.widgets[current].parent {
            Some(parent) => {
                proof {
                    assert(tree@.has_home(current));
                    assert(tree@.at(parent).links(current));
                }
                current = parent;
            },
            None => {
                return None;
            },
        }
    }
}

/// The layout priority that `widget` reports.
pub fn query_priority(tree: &WidgetTree, widget: usize) -> (r: Option<i32>)
    requires
        tree@.wf(),
        tree@.has(widget),
    ensures
        r == tree@.priority_of(widget),
    decreases tree@.rank[widget as int],
{
    let layout: WidgetLayout = tree.widgets[widget].layout;
    if let Some(priority) = layout.priority {
        return Some(priority);
    }
    match layout.priority_provider {
        None => None,
        Some(PriorityProvider::Content(content)) => {
            assert(tree@.at(widget).links(content));
            match query_priority(tree, content) {
                Some(priority) => Some(priority),
                None => Some(0),
            }
        },
        Some(PriorityProvider::FirstChild) => {
            if tree.widgets[widget].children.len() == 0 {
                return Some(0);
            }
            let child: usize = tree.widgets[widget].children[0];
            assert(tree@.at(widget).children@.contains(child));
            assert(tree@.at(widget).links(child));
            match query_priority(tree, child) {
                Some(priority) => Some(priority),
                None => Some(0),
            }
        },
    }
}

/// What the layout engine answered for the stretch axes of containers, in the
/// course of one query.
pub struct EngineAxes {
    pub answers: Vec<Option<StretchAxis>>,
}

/// A question to the layout engine: the axis a container claims when its
/// children claim `axes`.
#[derive(Debug)]
pub struct AxisQuestion {
    pub container: usize,
    pub axes: Vec<StretchAxis>,
}

impl TreeView {
    /// Whether container `w` answers with the axis recorded for it: it has no
    /// children to derive one from.
    pub open spec fn answers_as_recorded(self, w: usize) -> bool {
        self.at(w).children@.len() == 0 && self.marker(w).reported_axis is Some
    }

    /// The axis that `w` reports: what its provider answers, else the recorded
    /// one. The engine's answers for containers are taken from `answers`.
    pub open spec fn axis_of(self, answers: Seq<Option<StretchAxis>>, w: usize) -> Option<
        StretchAxis,
    >
        decreases self.rank[w as int],
        when self.wf() && self.has(w)
    {
        let layout = self.marker(w);
        match layout.axis_provider {
            None => layout.reported_axis,
            Some(AxisProvider::Content(content)) => {
                proof {
                    assert(self.at(w).links(content));
                }
                Some(
                    self.axis_of(answers, content).unwrap_or(
                        layout.reported_axis.unwrap_or(StretchAxis::Neither),
                    ),
                )
            },
            Some(AxisProvider::FirstChild) => match self.first_child(w) {
                Some(child) => {
                    proof {
                        assert(self.at(w).children@.contains(child));
                        assert(self.at(w).links(child));
                    }
                    Some(self.axis_of(answers, child).unwrap_or(StretchAxis::Neither))
                },
                None => Some(StretchAxis::Neither),
            },
            Some(AxisProvider::Fixed(axis)) => Some(axis),
            Some(AxisProvider::Container) => if self.answers_as_recorded(w) {
                layout.reported_axis
            } else {
                answers[w as int]
            },
        }
    }

    /// The axes that the children of `w` claim now, each as the child reports
    /// it, else as recorded in the container.
    pub open spec fn child_axes(self, answers: Seq<Option<StretchAxis>>, w: usize) -> Seq<
        StretchAxis,
    > {
        Seq::new(
            self.at(w).children@.len(),
            |i: int|
                self.axis_of(answers, self.at(w).children@[i]).unwrap_or(
                    self.at(w).container().axes@[i],
                ),
        )
    }

    /// The container whose engine answer is needed next before the axis of `w`
    /// is known: the first one, children before parents.
    pub open spec fn next_question(self, answers: Seq<Option<StretchAxis>>, w: usize) -> Option<
        usize,
    >
        decreases self.rank[w as int], self.at(w).children@.len() + 1,
        when self.wf() && self.has(w)
    {
        match self.marker(w).axis_provider {
            None => None,
            Some(AxisProvider::Fixed(_)) => None,
            Some(AxisProvider::Content(content)) => {
                proof {
                    assert(self.at(w).links(content));
                }
                self.next_question(answers, content)
            },
            Some(AxisProvider::FirstChild) => match self.first_child(w) {
                Some(child) => {
                    proof {
                        assert(self.at(w).children@.contains(child));
                        assert(self.at(w).links(child));
                    }
                    self.next_question(answers, child)
                },
                None => None,
            },
            Some(AxisProvider::Container) => if self.answers_as_recorded(w)
                || answers[w as int] is Some {
                None
            } else {
                match self.next_child_question(answers, w, 0) {
                    Some(inner) => Some(inner),
                    None => Some(w),
                }
            },
        }
    }

    /// The container to be asked next on behalf of the children of `w` from
    /// the `i`th on.
    pub open spec fn next_child_question(
        self,
        answers: Seq<Option<StretchAxis>>,
        w: usize,
        i: nat,
    ) -> Option<usize>
        decreases self.rank[w as int], self.at(w).children@.len() - i,
        when self.wf() && self.has(w) && i <= self.at(w).children@.len()
    {
        if i == self.at(w).children@.len() {
            None
        } else {
            let child = self.at(w).children@[i as int];
            proof {
                assert(self.at(w).children@.contains(child));
                assert(self.at(w).links(child));
            }
            match self.next_question(answers, child) {
                Some(inner) => Some(inner),
                None => self.next_child_question(answers, w, i + 1),
            }
        }
    }
}

impl EngineAxes {
    /// No answers yet, for a tree of `count` widgets.
    pub fn new(count: usize) -> (r: EngineAxes)
        ensures
            r.answers@ == Seq::new(count as nat, |i: int| None::<StretchAxis>),
    {
        let mut answers: Vec<Option<StretchAxis>> = Vec::new();
        let mut i: usize = 0;
        while i < count
            invariant
                i <= count,
                answers@ == Seq::new(i as nat, |i: int| None::<StretchAxis>),
            decreases count - i,
        {
            answers.push(None);
            i = i + 1;
        }
        EngineAxes { answers }
    }

    /// Takes the engine's answer for `container`.
    pub fn answer(&mut self, container: usize, axis: StretchAxis)
        requires
            container < old(self).answers@.len(),
        ensures
            final(self).answers@ == old(self).answers@.update(container as int, Some(axis)),
    {
        self.answers.set(container, Some(axis));
    }
}

/// The stretch axis that `widget` reports: a live answer first, then the axis
/// recorded when it was rendered.
pub fn query_axis(tree: &WidgetTree, engine: &EngineAxes, widget: usize) -> (r: Option<StretchAxis>)
    requires
        tree@.wf(),
        tree@.has(widget),
        engine.answers@.len() == tree@.widgets.len(),
    ensures
        r == tree@.axis_of(engine.answers@, widget),
    decreases tree@.rank[widget as int],
{
    let layout: WidgetLayout = tree.widgets[widget].layout;
    match layout.axis_provider {
        None => layout.reported_axis,
        Some(AxisProvider::Content(content)) => {
            assert(tree@.at(widget).links(content));
            match query_axis(tree, engine, content) {
                Some(axis) => Some(axis),
                None => match layout.reported_axis {
                    Some(axis) => Some(axis),
                    None => Some(StretchAxis::Neither),
                },
            }
        },
        Some(AxisProvider::FirstChild) => {
            if tree.widgets[widget].children.len() == 0 {
                return Some(StretchAxis::Neither);
            }
            let child: usize = tree.widgets[widget].children[0];
            assert(tree@.at(widget).children@.contains(child));
            assert(tree@.at(widget).links(child));
            match query_axis(tree, engine, child) {
                Some(axis) => Some(axis),
                None => Some(StretchAxis::Neither),
            }
        },
        Some(AxisProvider::Fixed(axis)) => Some(axis),
        Some(AxisProvider::Container) => {
            if tree.widgets[widget].children.len() == 0 && layout.reported_axis.is_some() {
                layout.reported_axis
            } else {
                engine.answers[widget]
            }
        },
    }
}

/// The axes that the children of container `w` claim now.
pub fn collect_axes(tree: &WidgetTree, engine: &EngineAxes, w: usize) -> (r: Vec<StretchAxis>)
    requires
        tree@.wf(),
        tree@.has(w),
        tree@.at(w).is_container(),
        engine.answers@.len() == tree@.widgets.len(),
    ensures
        r@ == tree@.child_axes(engine.answers@, w),
{
    let mut r: Vec<StretchAxis> = Vec::new();
    let mut i: usize = 0;
    let ghost wanted = tree@.child_axes(engine.answers@, w);
    assert(tree@.has(w) && tree@.at(w).sound());
    while i < tree.widgets[w].children.len()
        invariant
            tree@.wf(),
            tree@.has(w),
            tree@.at(w).is_container(),
            tree@.at(w).sound(),
            engine.answers@.len() == tree@.widgets.len(),
            i <= tree@.at(w).children@.len(),
            wanted == tree@.child_axes(engine.answers@, w),
            r@ == wanted.take(i as int),
        decreases tree@.at(w).children@.len() - i,
    {
        let child: usize = tree.widgets[w].children[i];
        assert(tree@.at(w).children@.contains(child));
        let axis: StretchAxis = match query_axis(tree, engine, child) {
            Some(axis) => axis,
            None => match &tree.widgets[w].kind {
                WidgetKind::Container(state) => state.axes[i],
                _ => StretchAxis::Neither,
            },
        };
        r.push(axis);
        assert(wanted.take(i + 1) =~= wanted.take(i as int).push(wanted[i as int]));
        i = i + 1;
    }
    assert(wanted.take(i as int) =~= wanted);
    r
}

/// What the layout engine has to be asked next before [`query_axis`] can
/// answer for `widget`; nothing when it can.
pub fn axis_question(tree: &WidgetTree, engine: &EngineAxes, widget: usize) -> (r: Option<
    AxisQuestion,
>)
    requires
        tree@.wf(),
        tree@.has(widget),
        engine.answers@.len() == tree@.widgets.len(),
    ensures
        match (r, tree@.next_question(engine.answers@, widget)) {
            (Some(question), Some(container)) => question.container == container
                && question.axes@ == tree@.child_axes(engine.answers@, container),
            (None, None) => true,
            _ => false,
        },
{
    match find_question(tree, engine, widget) {
        Some(container) => {
            proof {
                lemma_question_is_container(tree@, engine.answers@, widget);
            }
            let axes: Vec<StretchAxis> = collect_axes(tree, engine, container);
            Some(AxisQuestion { container, axes })
        },
        None => None,
    }
}

/// The container that the engine has to be asked about next.
fn find_question(tree: &WidgetTree, engine: &EngineAxes, w: usize) -> (r: Option<usize>)
    requires
        tree@.wf(),
        tree@.has(w),
        engine.answers@.len() == tree@.widgets.len(),
    ensures
        r == tree@.next_question(engine.answers@, w),
    decreases tree@.rank[w as int],
{
    let layout: WidgetLayout = tree.widgets[w].layout;
    match layout.axis_provider {
        None => None,
        Some(AxisProvider::Fixed(_)) => None,
        Some(AxisProvider::Content(content)) => {
            assert(tree@.at(w).links(content));
            find_question(tree, engine, content)
        },
        Some(AxisProvider::FirstChild) => {
            if tree.widgets[w].children.len() == 0 {
                return None;
            }
            let child: usize = tree.widgets[w].children[0];
            assert(tree@.at(w).children@.contains(child));
            assert(tree@.at(w).links(child));
            find_question(tree, engine, child)
        },
        Some(AxisProvider::Container) => {
            if tree.widgets[w].children.len() == 0 && layout.reported_axis.is_some() {
                return None;
            }
            if engine.answers[w].is_some() {
                return None;
            }
            let mut i: usize = 0;
            while i < tree.widgets[w].children.len()
                invariant
                    tree@.wf(),
                    tree@.has(w),
                    engine.answers@.len() == tree@.widgets.len(),
                    i <= tree@.at(w).children@.len(),
                    tree@.next_child_question(engine.answers@, w, i as nat)
                        == tree@.next_child_question(engine.answers@, w, 0),
                    tree@.marker(w).axis_provider == Some(AxisProvider::Container),
                    !tree@.answers_as_recorded(w),
                    engine.answers@[w as int] is None,
                decreases tree@.at(w).children@.len() - i,
            {
                let child: usize = tree.widgets[w].children[i];
                assert(tree@.at(w).children@.contains(child));
                assert(tree@.at(w).links(child));
                if let Some(inner) = find_question(tree, engine, child) {
                    return Some(inner);
                }
                i = i + 1;
            }
            Some(w)
        },
    }
}

/// Only a container without an answer is ever asked about.
pub proof fn lemma_question_is_container(
    t: TreeView,
    answers: Seq<Option<StretchAxis>>,
    w: usize,
)
    requires
        t.wf(),
        t.has(w),
    ensures
        t.next_question(answers, w) matches Some(c) ==> t.has(c) && t.at(c).is_container()
            && answers[c as int] is None,
    decreases t.rank[w as int], t.at(w).children@.len() + 1,
{
    match t.marker(w).axis_provider {
        Some(AxisProvider::Content(content)) => {
            assert(t.at(w).links(content));
            lemma_question_is_container(t, answers, content);
        },
        Some(AxisProvider::FirstChild) => {
            if let Some(child) = t.first_child(w) {
                assert(t.at(w).children@.contains(child));
                assert(t.at(w).links(child));
                lemma_question_is_container(t, answers, child);
            }
        },
        Some(AxisProvider::Container) => {
            assert(t.at(w).sound());
            lemma_child_question_is_container(t, answers, w, 0);
        },
        _ => {},
    }
}

proof fn lemma_child_question_is_container(
    t: TreeView,
    answers: Seq<Option<StretchAxis>>,
    w: usize,
    i: nat,
)
    requires
        t.wf(),
        t.has(w),
        i <= t.at(w).children@.len(),
    ensures
        t.next_child_question(answers, w, i) matches Some(c) ==> t.has(c) && t.at(
            c,
        ).is_container() && answers[c as int] is None,
    decreases t.rank[w as int], t.at(w).children@.len() - i,
{
    if i < t.at(w).children@.len() {
        let child = t.at(w).children@[i as int];
        assert(t.at(w).children@.contains(child));
        assert(t.at(w).links(child));
        lemma_question_is_container(t, answers, child);
        lemma_child_question_is_container(t, answers, w, i + 1);
    }
}

impl TreeView {
    /// Whether `content` is a child of `w`, so that `w` may name it.
    pub open spec fn hosts(self, w: usize, content: usize) -> bool {
        self.has(content) && self.at(content).parent == Some(w)
    }
}

/// Records the axis that the view of `widget` resolved to.
pub fn note_reported_axis(tree: &mut WidgetTree, widget: usize, axis: StretchAxis)
    requires
        old(tree)@.wf(),
        old(tree)@.has(widget),
    ensures
        final(tree)@ == old(tree)@.claiming(widget, axis),
        final(tree)@.wf(),
{
    let ghost layout = WidgetLayout { reported_axis: Some(axis), ..tree@.marker(widget) };
    proof {
        assert(tree@.at(widget).sound());
        lemma_replace(tree@, widget, Widget { layout, ..tree@.at(widget) });
    }
    tree.widgets[widget].layout.reported_axis = Some(axis);
}

/// Records the layout priority of `widget`; the last write wins.
pub fn set_layout_priority(tree: &mut WidgetTree, widget: usize, priority: i32)
    requires
        old(tree)@.wf(),
        old(tree)@.has(widget),
    ensures
        final(tree)@ == old(tree)@.ranking(widget, priority),
        final(tree)@.wf(),
{
    let ghost layout = WidgetLayout { priority: Some(priority), ..tree@.marker(widget) };
    proof {
        assert(tree@.at(widget).sound());
        lemma_replace(tree@, widget, Widget { layout, ..tree@.at(widget) });
    }
    tree.widgets[widget].layout.priority = Some(priority);
}

/// Installs the live answer for the stretch axis of `widget`.
pub fn install_axis_provider(tree: &mut WidgetTree, widget: usize, provider: AxisProvider)
    requires
        old(tree)@.wf(),
        old(tree)@.has(widget),
        provider matches AxisProvider::Content(content) ==> old(tree)@.hosts(widget, content),
        provider == AxisProvider::Container ==> old(tree)@.at(widget).is_container(),
    ensures
        final(tree)@ == old(tree)@.with_marker(
            widget,
            WidgetLayout { axis_provider: Some(provider), ..old(tree)@.marker(widget) },
        ),
        final(tree)@.wf(),
{
    let ghost layout = WidgetLayout { axis_provider: Some(provider), ..tree@.marker(widget) };
    proof {
        assert(tree@.at(widget).sound());
        lemma_replace(tree@, widget, Widget { layout, ..tree@.at(widget) });
    }
    tree.widgets[widget].layout.axis_provider = Some(provider);
}

/// Installs the live answer for the layout priority of `widget`.
pub fn install_priority_provider(tree: &mut WidgetTree, widget: usize, provider: PriorityProvider)
    requires
        old(tree)@.wf(),
        old(tree)@.has(widget),
        provider matches PriorityProvider::Content(content) ==> old(tree)@.hosts(widget, content),
    ensures
        final(tree)@ == old(tree)@.with_marker(
            widget,
            WidgetLayout { priority_provider: Some(provider), ..old(tree)@.marker(widget) },
        ),
        final(tree)@.wf(),
{
    let ghost layout = WidgetLayout { priority_provider: Some(provider), ..tree@.marker(widget) };
    proof {
        assert(tree@.at(widget).sound());
        lemma_replace(tree@, widget, Widget { layout, ..tree@.at(widget) });
    }
    tree.widgets[widget].layout.priority_provider = Some(provider);
}

/// Installs the raw measurement channel of `widget`.
pub fn install_measure_provider(tree: &mut WidgetTree, widget: usize, provider: MeasureProvider)
    requires
        old(tree)@.wf(),
        old(tree)@.has(widget),
        provider matches MeasureProvider::Content(content) ==> old(tree)@.hosts(widget, content),
    ensures
        final(tree)@ == old(tree)@.with_marker(
            widget,
            WidgetLayout { measure_provider: Some(provider), ..old(tree)@.marker(widget) },
        ),
        final(tree)@.wf(),
{
    let ghost layout = WidgetLayout { measure_provider: Some(provider), ..tree@.marker(widget) };
    proof {
        assert(tree@.at(widget).sound());
        lemma_replace(tree@, widget, Widget { layout, ..tree@.at(widget) });
    }
    tree.widgets[widget].layout.measure_provider = Some(provider);
}

/// Installs what a delivered proposal does on `widget`.
pub fn install_proposal_sink(tree: &mut WidgetTree, widget: usize, sink: ProposalSink)
    requires
        old(tree)@.wf(),
        old(tree)@.has(widget),
        sink matches ProposalSink::Forward(content) ==> old(tree)@.hosts(widget, content),
        sink matches ProposalSink::BoxSlot(content) ==> old(tree)@.hosts(widget, content)
            && old(tree)@.at(widget).kind is Linear,
        sink == ProposalSink::Container ==> old(tree)@.at(widget).is_container(),
    ensures
        final(tree)@ == old(tree)@.with_marker(
            widget,
            WidgetLayout { proposal_sink: Some(sink), ..old(tree)@.marker(widget) },
        ),
        final(tree)@.wf(),
{
    let ghost layout = WidgetLayout { proposal_sink: Some(sink), ..tree@.marker(widget) };
    proof {
        assert(tree@.at(widget).sound());
        lemma_replace(tree@, widget, Widget { layout, ..tree@.at(widget) });
    }
    tree.widgets[widget].layout.proposal_sink = Some(sink);
}

/// The axis recorded for `widget` when it was rendered.
pub fn reported_axis(tree: &WidgetTree, widget: usize) -> (r: Option<StretchAxis>)
    requires
        tree@.has(widget),
    ensures
        r == tree@.marker(widget).reported_axis,
{
    tree.widgets[widget].layout.reported_axis
}

/// The raw measurement channel installed on `widget`.
pub fn measure_provider(tree: &WidgetTree, widget: usize) -> (r: Option<MeasureProvider>)
    requires
        tree@.has(widget),
    ensures
        r == tree@.marker(widget).measure_provider,
{
    tree.widgets[widget].layout.measure_provider
}

/// The content-box packet last handed to the sink of `widget`.
pub fn retained_proposal(tree: &WidgetTree, widget: usize) -> (r: Option<ProposalSize>)
    requires
        tree@.has(widget),
    ensures
        r == tree@.marker(widget).retained_proposal,
{
    tree.widgets[widget].layout.retained_proposal
}

/// Passes every proposal delivered to `widget` on to `child`, which it hosts.
pub fn forward_proposals_to_child(tree: &mut WidgetTree, widget: usize, child: usize)
    requires
        old(tree)@.wf(),
        old(tree)@.has(widget),
        old(tree)@.hosts(widget, child),
    ensures
        final(tree)@ == old(tree)@.with_marker(
            widget,
            WidgetLayout {
                proposal_sink: Some(ProposalSink::Forward(child)),
                ..old(tree)@.marker(widget)
            },
        ),
        final(tree)@.wf(),
{
    install_proposal_sink(tree, widget, ProposalSink::Forward(child));
}

/// Makes `widget` transparent to `content`, which it hosts: deliveries are
/// passed on, probes answered by `content`, and axis and priority read through.
pub fn transparent_to_content(tree: &mut WidgetTree, widget: usize, content: usize)
    requires
        old(tree)@.wf(),
        old(tree)@.has(widget),
        old(tree)@.hosts(widget, content),
    ensures
        final(tree)@ == old(tree)@.transparent(widget, content),
        final(tree)@.wf(),
{
    forward_proposals_to_child(tree, widget, content);
    assert(tree@.hosts(widget, content));
    install_measure_provider(tree, widget, MeasureProvider::Content(content));
    assert(tree@.hosts(widget, content));
    install_axis_provider(tree, widget, AxisProvider::Content(content));
    assert(tree@.hosts(widget, content));
    install_priority_provider(tree, widget, PriorityProvider::Content(content));
    assert(tree@.widgets =~= old(tree)@.transparent(widget, content).widgets);
}

/// Makes the box `row` pass every delivered proposal on to `content` as the
/// slot that its other children leave it.
pub fn forward_box_content_slot(tree: &mut WidgetTree, row: usize, content: usize)
    requires
        old(tree)@.wf(),
        old(tree)@.has(row),
        old(tree)@.at(row).kind is Linear,
        old(tree)@.hosts(row, content),
    ensures
        final(tree)@ == old(tree)@.with_marker(
            row,
            WidgetLayout {
                proposal_sink: Some(ProposalSink::BoxSlot(content)),
                ..old(tree)@.marker(row)
            },
        ),
        final(tree)@.wf(),
{
    install_proposal_sink(tree, row, ProposalSink::BoxSlot(content));
}

/// What a widget of natural extent `natural` takes up in a box.
pub open spec fn occupancy(natural: int) -> Single {
    Single::of_int(if natural < 0 {
        0
    } else {
        natural
    })
}

impl TreeView {
    /// The natural extent of `w` along `orientation`.
    pub open spec fn natural_extent(self, w: usize, orientation: Orientation) -> i32 {
        match orientation {
            Orientation::Horizontal => self.at(w).natural.width,
            Orientation::Vertical => self.at(w).natural.height,
        }
    }

    /// What the visible ones of `siblings` other than `content` take up along
    /// `orientation`, added up in their order.
    pub open spec fn occupied(
        self,
        siblings: Seq<usize>,
        orientation: Orientation,
        content: usize,
    ) -> Single
        decreases siblings.len(),
    {
        if siblings.len() == 0 {
            Single { bits: ZERO }
        } else {
            let before = self.occupied(siblings.drop_last(), orientation, content);
            let last = siblings.last();
            if !self.at(last).visible || last == content {
                before
            } else {
                Single::sum(before, occupancy(self.natural_extent(last, orientation) as int))
            }
        }
    }

    /// How many of `siblings` are visible.
    pub open spec fn visible_count(self, siblings: Seq<usize>) -> nat
        decreases siblings.len(),
    {
        if siblings.len() == 0 {
            0
        } else {
            self.visible_count(siblings.drop_last()) + if self.at(siblings.last()).visible {
                1nat
            } else {
                0nat
            }
        }
    }

    /// What a box's visible chrome takes from `content`: the siblings' extents
    /// and one gap between each two visible children.
    pub open spec fn chrome_extent(self, row: usize, content: usize) -> Single {
        let children = self.at(row).children@;
        let visible = self.visible_count(children);
        let pairs = if visible == 0 {
            0
        } else {
            visible - 1
        };
        Single::sum(
            self.occupied(children, self.at(row).kind->orientation, content),
            Single::product(
                Single::of_int(self.at(row).kind->spacing as int),
                Single::of_int(pairs),
            ),
        )
    }

    /// The slot that a box offered `packet` leaves for `content`: its extent
    /// along the box less the chrome, its extent across unchanged.
    pub open spec fn content_slot(
        self,
        row: usize,
        content: usize,
        packet: ProposalSize,
    ) -> ProposalSize {
        let chrome = self.chrome_extent(row, content);
        match self.at(row).kind->orientation {
            Orientation::Horizontal => ProposalSize {
                width: shrunk_extent(packet.width, chrome),
                height: packet.height,
            },
            Orientation::Vertical => ProposalSize {
                width: packet.width,
                height: shrunk_extent(packet.height, chrome),
            },
        }
    }

    /// `proposal`, in the terms of the margin box of `w`, in those of its
    /// content box.
    pub open spec fn content_packet(self, w: usize, proposal: ProposalSize) -> ProposalSize {
        let margins = self.at(w).margins;
        shrunk(
            proposal,
            Single::of_int(margins.start + margins.end),
            Single::of_int(margins.top + margins.bottom),
        )
    }

    /// The tree after `w` retained `packet`.
    pub open spec fn retaining(self, w: usize, packet: ProposalSize) -> TreeView {
        self.with_marker(
            w,
            WidgetLayout { retained_proposal: Some(packet), ..self.marker(w) },
        )
    }

    /// The tree after container `w` selected `packet`: a changed packet asks
    /// for a new allocation.
    pub open spec fn selecting(self, w: usize, packet: ProposalSize) -> TreeView {
        let widget = self.at(w);
        let state = widget.container();
        self.with(
            w,
            Widget {
                kind: WidgetKind::Container(
                    ContainerState { selected_proposal: Some(packet), ..state },
                ),
                allocate_queued: widget.allocate_queued || state.selected_proposal != Some(packet),
                ..widget
            },
        )
    }

    /// The tree after `proposal`, in margin-box terms, was delivered to `w`.
    pub open spec fn delivered(self, w: usize, proposal: ProposalSize) -> TreeView
        decreases self.rank[w as int], 1nat,
        when self.wf() && self.has(w)
    {
        if self.marker(w).proposal_sink is None {
            self
        } else {
            let packet = self.content_packet(w, proposal);
            self.retaining(w, packet).sunk(w, packet)
        }
    }

    /// The tree after the sink of `w` ran on the content-box packet `packet`.
    pub open spec fn sunk(self, w: usize, packet: ProposalSize) -> TreeView
        decreases self.rank[w as int], 0nat,
        when self.wf() && self.has(w)
    {
        match self.marker(w).proposal_sink {
            None => self,
            Some(ProposalSink::Forward(content)) => {
                proof {
                    assert(self.at(w).links(content));
                }
                self.delivered(content, packet)
            },
            Some(ProposalSink::FirstChild) => match self.first_child(w) {
                Some(child) => {
                    proof {
                        assert(self.at(w).children@.contains(child));
                        assert(self.at(w).links(child));
                    }
                    self.delivered(child, packet)
                },
                None => self,
            },
            Some(ProposalSink::BoxSlot(content)) => {
                proof {
                    assert(self.at(w).links(content));
                }
                self.delivered(content, self.content_slot(w, content, packet))
            },
            Some(ProposalSink::Container) => self.selecting(w, packet),
        }
    }
}

/// Retaining a packet keeps the tree in order.
pub proof fn lemma_retaining(t: TreeView, w: usize, packet: ProposalSize)
    requires
        t.wf(),
        t.has(w),
    ensures
        t.retaining(w, packet).wf(),
{
    assert(t.at(w).sound());
    lemma_replace(t, w, t.retaining(w, packet).at(w));
}

/// Selecting a packet keeps the tree in order.
pub proof fn lemma_selecting(t: TreeView, w: usize, packet: ProposalSize)
    requires
        t.wf(),
        t.has(w),
        t.at(w).is_container(),
    ensures
        t.selecting(w, packet).wf(),
{
    assert(t.at(w).sound());
    lemma_replace(t, w, t.selecting(w, packet).at(w));
}

/// What the visible chrome of box `row` takes from `content`.
fn measure_chrome(tree: &WidgetTree, row: usize, content: usize) -> (r: Single)
    requires
        tree@.wf(),
        tree@.has(row),
        tree@.at(row).kind is Linear,
    ensures
        r == tree@.chrome_extent(row, content),
{
    let mut orientation: Orientation = Orientation::Horizontal;
    let mut spacing: i32 = 0;
    if let WidgetKind::Linear { orientation: o, spacing: s } = &tree.widgets[row].kind {
        orientation = *o;
        spacing = *s;
    }
    let mut occupied: Single = Single { bits: ZERO };
    let mut visible: usize = 0;
    let mut i: usize = 0;
    let ghost children = tree@.at(row).children@;
    assert(children.take(0) =~= seq![]);
    while i < tree.widgets[row].children.len()
        invariant
            tree@.wf(),
            tree@.has(row),
            children == tree@.at(row).children@,
            i <= children.len(),
            visible <= i,
            occupied == tree@.occupied(children.take(i as int), orientation, content),
            visible == tree@.visible_count(children.take(i as int)),
        decreases children.len() - i,
    {
        let sibling: usize = tree.widgets[row].children[i];
        assert(tree@.at(row).children@.contains(sibling));
        assert(children.take(i + 1).drop_last() =~= children.take(i as int));
        assert(children.take(i + 1).last() == sibling);
        if tree.widgets[sibling].visible {
            visible = visible + 1;
            if sibling != content {
                let natural: i32 = match orientation {
                    Orientation::Horizontal => tree.widgets[sibling].natural.width,
                    Orientation::Vertical => tree.widgets[sibling].natural.height,
                };
                occupied = occupied.plus(Single::from_i32(if natural < 0 { 0 } else { natural }));
            }
        }
        i = i + 1;
    }
    assert(children.take(i as int) =~= children);
    let pairs: usize = if visible == 0 { 0 } else { visible - 1 };
    occupied.plus(Single::from_i32(spacing).times(Single::from_usize(pairs)))
}

/// Stores the proposal that the parent layout selected for container `w`.
fn note_selected_proposal(tree: &mut WidgetTree, w: usize, proposal: ProposalSize)
    requires
        old(tree)@.wf(),
        old(tree)@.has(w),
        old(tree)@.at(w).is_container(),
    ensures
        final(tree)@ == old(tree)@.selecting(w, proposal),
        final(tree)@.wf(),
{
    proof {
        lemma_selecting(tree@, w, proposal);
    }
    let mut changed: bool = true;
    if let WidgetKind::Container(state) = &mut tree.widgets[w].kind {
        changed = match state.selected_proposal {
            Some(previous) => !proposals_equal(previous, proposal),
            None => true,
        };
        state.selected_proposal = Some(proposal);
    }
    if changed {
        tree.widgets[w].allocate_queued = true;
    }
    assert(tree@.widgets =~= old(tree)@.selecting(w, proposal).widgets);
}

/// Runs the sink of `w` on its content-box packet.
fn sink_proposal(tree: &mut WidgetTree, w: usize, packet: ProposalSize)
    requires
        old(tree)@.wf(),
        old(tree)@.has(w),
    ensures
        final(tree)@ == old(tree)@.sunk(w, packet),
        final(tree)@.wf(),
    decreases old(tree)@.rank[w as int], 0nat,
{
    match tree.widgets[w].layout.proposal_sink {
        None => {},
        Some(ProposalSink::Forward(content)) => {
            assert(tree@.at(w).links(content));
            deliver_proposal(tree, content, packet);
        },
        Some(ProposalSink::FirstChild) => {
            if tree.widgets[w].children.len() > 0 {
                let child: usize = tree.widgets[w].children[0];
                assert(tree@.at(w).children@.contains(child));
                assert(tree@.at(w).links(child));
                deliver_proposal(tree, child, packet);
            }
        },
        Some(ProposalSink::BoxSlot(content)) => {
            assert(tree@.at(w).links(content));
            assert(tree@.at(w).sound());
            let chrome: Single = measure_chrome(tree, w, content);
            let horizontal: bool = match &tree.widgets[w].kind {
                WidgetKind::Linear { orientation, .. } => *orientation == Orientation::Horizontal,
                _ => false,
            };
            let slot: ProposalSize = if horizontal {
                ProposalSize::new(shrink_extent(packet.width, chrome), packet.height)
            } else {
                ProposalSize::new(packet.width, shrink_extent(packet.height, chrome))
            };
            deliver_proposal(tree, content, slot);
        },
        Some(ProposalSink::Container) => {
            assert(tree@.at(w).sound());
            note_selected_proposal(tree, w, packet);
        },
    }
}

/// Runs the sink of `widget` again on the packet already in force.
pub fn reoffer_proposal(tree: &mut WidgetTree, widget: usize)
    requires
        old(tree)@.wf(),
        old(tree)@.has(widget),
    ensures
        final(tree)@ == match old(tree)@.marker(widget).retained_proposal {
            Some(packet) => old(tree)@.sunk(widget, packet),
            None => old(tree)@,
        },
        final(tree)@.wf(),
{
    if let Some(packet) = tree.widgets[widget].layout.retained_proposal {
        sink_proposal(tree, widget, packet);
    }
}

/// Delivers the proposal that a layout selected for `widget`, in margin-box
/// terms. The content-box packet is retained before the sink runs; a widget
/// without a sink ignores the delivery.
pub fn deliver_proposal(tree: &mut WidgetTree, widget: usize, proposal: ProposalSize)
    requires
        old(tree)@.wf(),
        old(tree)@.has(widget),
    ensures
        final(tree)@ == old(tree)@.delivered(widget, proposal),
        final(tree)@.wf(),
    decreases old(tree)@.rank[widget as int], 1nat,
{
    if tree.widgets[widget].layout.proposal_sink.is_none() {
        return;
    }
    assert(tree@.at(widget).sound());
    let margins: Margins = tree.widgets[widget].margins;
    let packet: ProposalSize = shrink_proposal(
        proposal,
        Single::from_i32(margins.start + margins.end),
        Single::from_i32(margins.top + margins.bottom),
    );
    proof {
        lemma_retaining(tree@, widget, packet);
    }
    tree.widgets[widget].layout.retained_proposal = Some(packet);
    assert(tree@.widgets =~= old(tree)@.retaining(widget, packet).widgets);
    sink_proposal(tree, widget, packet);
}

/// Whether `b` is `a` but for the packets in force and a request for a new
/// allocation, which may have been added.
pub open spec fn repacked(a: Widget, b: Widget) -> bool {
    &&& b == (Widget {
        layout: WidgetLayout { retained_proposal: b.layout.retained_proposal, ..a.layout },
        kind: b.kind,
        allocate_queued: b.allocate_queued,
        ..a
    })
    &&& a.allocate_queued ==> b.allocate_queued
    &&& if a.is_container() {
        b.kind == WidgetKind::Container(
            ContainerState {
                selected_proposal: b.container().selected_proposal,
                ..a.container()
            },
        )
    } else {
        b.kind == a.kind
    }
}

impl TreeView {
    /// Whether `u` is this tree but for packets and requests for allocation.
    pub open spec fn only_repacked(self, u: TreeView) -> bool {
        &&& u.widgets.len() == self.widgets.len()
        &&& u.rank == self.rank
        &&& u.bound == self.bound
        &&& forall|x: usize| #[trigger] self.has(x) ==> repacked(self.at(x), u.at(x))
    }
}

/// A delivery changes nothing but the packets in force and the requests for
/// allocation, and keeps the tree well formed.
pub proof fn lemma_delivery_frame(t: TreeView, w: usize, proposal: ProposalSize)
    requires
        t.wf(),
        t.has(w),
    ensures
        t.delivered(w, proposal).wf(),
        t.only_repacked(t.delivered(w, proposal)),
    decreases t.rank[w as int], 1nat,
{
    if t.marker(w).proposal_sink is Some {
        let packet = t.content_packet(w, proposal);
        let u = t.retaining(w, packet);
        lemma_retaining(t, w, packet);
        lemma_sink_frame(u, w, packet);
        assert forall|x: usize| #[trigger] t.has(x) implies repacked(
            t.at(x),
            u.sunk(w, packet).at(x),
        ) by {
            assert(u.has(x));
            assert(repacked(t.at(x), u.at(x)));
        }
    }
}

/// Running a sink changes nothing but the packets in force and the requests
/// for allocation, and keeps the tree well formed.
pub proof fn lemma_sink_frame(t: TreeView, w: usize, packet: ProposalSize)
    requires
        t.wf(),
        t.has(w),
    ensures
        t.sunk(w, packet).wf(),
        t.only_repacked(t.sunk(w, packet)),
    decreases t.rank[w as int], 0nat,
{
    match t.marker(w).proposal_sink {
        None => {},
        Some(ProposalSink::Forward(content)) => {
            assert(t.at(w).links(content));
            lemma_delivery_frame(t, content, packet);
        },
        Some(ProposalSink::FirstChild) => {
            if let Some(child) = t.first_child(w) {
                assert(t.at(w).children@.contains(child));
                assert(t.at(w).links(child));
                lemma_delivery_frame(t, child, packet);
            }
        },
        Some(ProposalSink::BoxSlot(content)) => {
            assert(t.at(w).links(content));
            lemma_delivery_frame(t, content, t.content_slot(w, content, packet));
        },
        Some(ProposalSink::Container) => {
            assert(t.at(w).sound());
            lemma_selecting(t, w, packet);
        },
    }
}

} // verus!
