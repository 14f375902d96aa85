//! The container whose children the layout engine measures and places.
//!
//! A container that a layout placed works under the proposal that layout
//! selected for it; one that is hosted natively works under the offer its host
//! makes, reconstructed from its bounds.

use crate::geometry::{
    Orientation, Point, ProposalSize, Rect, Size, StretchAxis,
};
use crate::layout::proposal::{
    install_axis_provider, install_proposal_sink, scroll_axes_for, scroll_offer, scroll_packet,
};
use crate::layout::widget::{
    lemma_replace, lemma_still_unreached, lemma_unlinked_is_unreached, AxisProvider,
    ContainerState, Margins, NaturalSize, ProposalSink, TreeView, Widget, WidgetKind, WidgetLayout, WidgetTree,
};
use crate::single::{lemma_constants, lemma_small_whole_is_exact, Single, ZERO};
use vstd::arithmetic::power2::pow2;
use vstd::prelude::*;

verus! {

/// A container in a widget tree.
#[derive(Clone, Copy, Debug, PartialEq, Eq, Structural)]
pub struct WuiFixedContainer {
    pub widget: usize,
}

/// What the layout engine is asked for when it places a container's children.
#[derive(Clone, Copy, Debug, PartialEq, Eq, Structural)]
pub struct PlacementRequest {
    pub bounds: Rect,
    pub proposal: ProposalSize,
}

/// The widgets of a list of children.
pub open spec fn ids_of(children: Seq<(usize, StretchAxis)>) -> Seq<usize> {
    children.map_values(|child: (usize, StretchAxis)| child.0)
}

/// The axes recorded in a list of children.
pub open spec fn axes_of(children: Seq<(usize, StretchAxis)>) -> Seq<StretchAxis> {
    children.map_values(|child: (usize, StretchAxis)| child.1)
}

impl TreeView {
    /// Whether `children` can become the children of `container` once its
    /// present ones are gone: each is there once, without another parent, and
    /// no step leads from it back to the container.
    pub open spec fn adoptable(self, container: usize, children: Seq<(usize, StretchAxis)>) -> bool {
        &&& ids_of(children).no_duplicates()
        &&& forall|i: int|
            0 <= i < children.len() ==> self.has((#[trigger] children[i]).0) && (self.at(
                children[i].0,
            ).parent is None || self.at(children[i].0).parent == Some(container)) && !self.reaches(
                children[i].0,
                container,
            )
    }

    /// Whether in this tree `children` were put into `container`, compared
    /// with `before`; nothing else of other widgets changed but that former
    /// children lost their parent.
    pub open spec fn adopted(
        self,
        before: TreeView,
        container: usize,
        children: Seq<(usize, StretchAxis)>,
    ) -> bool {
        &&& self.at(container).is_container()
        &&& self.at(container).children@ == ids_of(children)
        &&& self.at(container).container().axes@ == axes_of(children)
        &&& forall|x: usize|
            before.has(x) && x != container ==> (#[trigger] self.at(x)) == if ids_of(
                children,
            ).contains(x) {
                Widget { parent: Some(container), ..before.at(x) }
            } else if before.at(x).parent == Some(container) {
                Widget { parent: None, ..before.at(x) }
            } else {
                before.at(x)
            }
    }
}

/// Puts `children` into an empty container.
fn adopt_children(tree: &mut WidgetTree, container: usize, children: &Vec<(usize, StretchAxis)>)
    requires
        old(tree)@.wf(),
        old(tree)@.has(container),
        old(tree)@.at(container).is_container(),
        old(tree)@.at(container).children@.len() == 0,
        old(tree)@.at(container).container().axes@.len() == 0,
        old(tree)@.adoptable(container, children@),
    ensures
        final(tree)@.wf(),
        final(tree)@.widgets.len() == old(tree)@.widgets.len(),
        final(tree)@.adopted(old(tree)@, container, children@),
        final(tree)@.at(container) == (Widget {
            children: final(tree)@.at(container).children,
            kind: WidgetKind::Container(
                ContainerState {
                    axes: final(tree)@.at(container).container().axes,
                    ..old(tree)@.at(container).container()
                },
            ),
            ..old(tree)@.at(container)
        }),
{
    let ghost t = tree@;
    let ghost ids = ids_of(children@);
    let mut i: usize = 0;
    proof {
        assert forall|x: usize| t.has(x) implies #[trigger] t.at(x).parent != Some(container) by {
            if t.at(x).parent == Some(container) {
                assert(t.has_home(x));
                assert(t.at(container).children@.contains(x));
            }
        }
        assert(ids.take(0) =~= seq![]);
        assert(axes_of(children@).take(0) =~= seq![]);
        assert(!ids.contains(container)) by {
            if ids.contains(container) {
                let k = choose|k: int| 0 <= k < ids.len() && ids[k] == container;
                assert(children@[k].0 == container);
                assert(t.reaches(container, container));
            }
        }
    }
    while i < children.len()
        invariant
            t == old(tree)@,
            t.wf(),
            t.has(container),
            t.adoptable(container, children@),
            ids == ids_of(children@),
            !ids.contains(container),
            i <= children@.len(),
            tree@.wf(),
            tree@.widgets.len() == t.widgets.len(),
            tree@.at(container).is_container(),
            tree@.at(container).children@ == ids.take(i as int),
            tree@.at(container).container().axes@ == axes_of(children@).take(i as int),
            tree@.at(container) == (Widget {
                children: tree@.at(container).children,
                kind: WidgetKind::Container(
                    ContainerState {
                        axes: tree@.at(container).container().axes,
                        ..t.at(container).container()
                    },
                ),
                ..t.at(container)
            }),
            forall|x: usize| t.has(x) ==> #[trigger] t.at(x).parent != Some(container),
            forall|x: usize|
                t.has(x) && x != container ==> (#[trigger] tree@.at(x)) == if ids.take(
                    i as int,
                ).contains(x) {
                    Widget { parent: Some(container), ..t.at(x) }
                } else {
                    t.at(x)
                },
        decreases children@.len() - i,
    {
        let (child, axis) = children[i];
        let ghost before = tree@;
        proof {
            assert(t.has(children@[i as int].0));
            assert(ids[i as int] == child);
            assert(ids.contains(child));
            assert(!ids.take(i as int).contains(child));
            assert(before.at(child) == t.at(child));
            assert forall|x: usize, b: usize|
                x != container && t.has(x) && #[trigger] before.at(x).links(b) implies t.at(
                x,
            ).links(b) by {}
            lemma_still_unreached(t, before, child, container);
            assert(ids.take(i + 1) =~= ids.take(i as int).push(child));
            assert(axes_of(children@).take(i + 1) =~= axes_of(children@).take(i as int).push(axis));
        }
        tree.adopt(container, child, axis);
        assert forall|x: usize| #[trigger] ids.take(i + 1).contains(x) == (ids.take(
            i as int,
        ).contains(x) || x == child) by {
            let p = ids.take(i as int);
            let q = ids.take(i + 1);
            if p.contains(x) {
                let k = choose|k: int| 0 <= k < p.len() && p[k] == x;
                assert(q[k] == x);
            }
            assert(q[i as int] == child);
            if q.contains(x) {
                let k = choose|k: int| 0 <= k < q.len() && q[k] == x;
                if k < i {
                    assert(p[k] == x);
                }
            }
        }
        assert forall|x: usize| t.has(x) && x != container implies (#[trigger] tree@.at(x))
            == if ids.take(i + 1).contains(x) {
            Widget { parent: Some(container), ..t.at(x) }
        } else {
            t.at(x)
        } by {
            assert(before.has(x));
            assert(before.at(x) == if ids.take(i as int).contains(x) {
                Widget { parent: Some(container), ..t.at(x) }
            } else {
                t.at(x)
            });
        }
        i = i + 1;
    }
    assert(ids.take(i as int) =~= ids);
    assert(axes_of(children@).take(i as int) =~= axes_of(children@));
}

impl TreeView {
    /// The bounds of an allocation of whole pixels.
    pub open spec fn bounds(width: i32, height: i32) -> Rect {
        let zero = Single { bits: ZERO };
        Rect {
            origin: Point { x: zero, y: zero },
            size: Size {
                width: Single::of_int(if width < 0 {
                    0
                } else {
                    width as int
                }),
                height: Single::of_int(if height < 0 {
                    0
                } else {
                    height as int
                }),
            },
        }
    }

    /// What the engine is asked for when container `w` places its children in
    /// `width` by `height` pixels: the proposal in force, else the offer of
    /// the scroll owner around it, else its bounds. A container without
    /// children asks for nothing.
    pub open spec fn placement(self, w: usize, width: i32, height: i32) -> Option<
        PlacementRequest,
    > {
        let bounds = TreeView::bounds(width, height);
        if self.at(w).children@.len() == 0 {
            None
        } else {
            let proposal = match self.at(w).container().selected_proposal {
                Some(selected) => selected,
                None => match self.scroll_axes_of(w) {
                    Some((horizontal, vertical)) => scroll_packet(
                        horizontal,
                        vertical,
                        bounds.size.width,
                        bounds.size.height,
                    ),
                    None => ProposalSize {
                        width: Some(bounds.size.width),
                        height: Some(bounds.size.height),
                    },
                },
            };
            Some(PlacementRequest { bounds, proposal })
        }
    }
}

impl TreeView {
    /// What the engine is asked for once the children of container `w`, which
    /// holds `width` by `height` pixels, were replaced.
    pub open spec fn replacement(self, w: usize, width: i32, height: i32) -> Option<
        PlacementRequest,
    > {
        if width > 0 && height > 0 {
            self.placement(w, width, height)
        } else {
            None
        }
    }
}

/// What a container reports and does: its layout answers for its axis, and what
/// is delivered to it becomes its own proposal.
pub open spec fn container_marker() -> WidgetLayout {
    WidgetLayout {
        proposal_sink: Some(ProposalSink::Container),
        axis_provider: Some(AxisProvider::Container),
        ..WidgetLayout::empty()
    }
}

impl WuiFixedContainer {
    /// Adds a container that lays `children` out. `relays_main_axis` and
    /// `stack_axis` say what its layout does with a child that claims the main
    /// axis, and which axis that is.
    pub fn new(
        tree: &mut WidgetTree,
        relays_main_axis: bool,
        stack_axis: Option<Orientation>,
        children: &Vec<(usize, StretchAxis)>,
    ) -> (r: WuiFixedContainer)
        requires
            old(tree)@.wf(),
            old(tree)@.widgets.len() < usize::MAX,
            ids_of(children@).no_duplicates(),
            forall|i: int|
                0 <= i < children@.len() ==> old(tree)@.has((#[trigger] children@[i]).0) && old(
                    tree,
                )@.at(children@[i].0).parent is None,
        ensures
            final(tree)@.wf(),
            r.widget == old(tree)@.widgets.len(),
            final(tree)@.widgets.len() == old(tree)@.widgets.len() + 1,
            final(tree)@.adopted(old(tree)@, r.widget, children@),
            final(tree)@.at(r.widget).container().selected_proposal is None,
            final(tree)@.at(r.widget).container().relays_main_axis == relays_main_axis,
            final(tree)@.at(r.widget).container().stack_axis == stack_axis,
            final(tree)@.at(r.widget).parent is None,
            final(tree)@.at(r.widget).margins == (Margins { start: 0, end: 0, top: 0, bottom: 0 }),
            final(tree)@.at(r.widget).visible,
            final(tree)@.at(r.widget).natural == (NaturalSize { width: 0, height: 0 }),
            !final(tree)@.at(r.widget).allocate_queued,
            !final(tree)@.at(r.widget).resize_queued,
            final(tree)@.marker(r.widget) == container_marker(),
    {
        let ghost t = tree@;
        let widget: usize = tree.add_widget(
            WidgetKind::Container(
                ContainerState {
                    axes: Vec::new(),
                    selected_proposal: None,
                    relays_main_axis,
                    stack_axis,
                },
            ),
        );
        proof {
            let u = tree@;
            assert forall|x: usize| #[trigger] u.has(x) implies !u.at(x).links(widget) by {
                if x != widget {
                    assert(u.at(x) == t.at(x));
                    if t.at(x).links(widget) {
                        assert(t.has(x));
                        assert(t.has(widget));
                    }
                }
            }
            assert forall|i: int| 0 <= i < children@.len() implies u.has((#[trigger] children@[i]).0)
                && (u.at(children@[i].0).parent is None || u.at(children@[i].0).parent == Some(
                widget,
            )) && !u.reaches(children@[i].0, widget) by {
                assert(t.has(children@[i].0));
                lemma_unlinked_is_unreached(u, children@[i].0, widget);
            }
        }
        let ghost bare = tree@;
        adopt_children(tree, widget, children);
        let ghost filled = tree@;
        install_proposal_sink(tree, widget, ProposalSink::Container);
        install_axis_provider(tree, widget, AxisProvider::Container);
        proof {
            assert forall|x: usize| t.has(x) && x != widget implies (#[trigger] tree@.at(x))
                == filled.at(x) && bare.at(x) == t.at(x) by {
                assert(filled.has(x));
            }
            assert forall|x: usize| t.has(x) implies #[trigger] t.at(x).parent != Some(widget) by {
                assert(t.has_home(x));
            }
        }
        WuiFixedContainer { widget }
    }

    /// What the engine is asked for when the children are placed in `width` by
    /// `height` pixels.
    pub fn place_children(&self, tree: &WidgetTree, width: i32, height: i32) -> (r: Option<
        PlacementRequest,
    >)
        requires
            tree@.wf(),
            tree@.has(self.widget),
            tree@.at(self.widget).is_container(),
        ensures
            r == tree@.placement(self.widget, width, height),
    {
        if tree.widgets[self.widget].children.len() == 0 {
            return None;
        }
        let zero: Single = Single { bits: ZERO };
        let bounds: Rect = Rect {
            origin: Point { x: zero, y: zero },
            size: Size {
                width: Single::from_i32(if width < 0 { 0 } else { width }),
                height: Single::from_i32(if height < 0 { 0 } else { height }),
            },
        };
        let selected: Option<ProposalSize> = match &tree.widgets[self.widget].kind {
            WidgetKind::Container(state) => state.selected_proposal,
            _ => None,
        };
        let proposal: ProposalSize = match selected {
            Some(selected) => selected,
            None => match scroll_axes_for(tree, self.widget) {
                Some((horizontal, vertical)) => scroll_offer(
                    horizontal,
                    vertical,
                    bounds.size.width,
                    bounds.size.height,
                ),
                None => ProposalSize::new(Some(bounds.size.width), Some(bounds.size.height)),
            },
        };
        Some(PlacementRequest { bounds, proposal })
    }

    /// Replaces the children and asks for a new size negotiation. A container
    /// that holds an allocation of `width` by `height` pixels places its new
    /// children in it at once.
    pub fn set_children(
        &self,
        tree: &mut WidgetTree,
        children: &Vec<(usize, StretchAxis)>,
        width: i32,
        height: i32,
    ) -> (r: Option<PlacementRequest>)
        requires
            old(tree)@.wf(),
            old(tree)@.has(self.widget),
            old(tree)@.at(self.widget).is_container(),
            old(tree)@.adoptable(self.widget, children@),
        ensures
            final(tree)@.wf(),
            final(tree)@.widgets.len() == old(tree)@.widgets.len(),
            final(tree)@.adopted(old(tree)@, self.widget, children@),
            final(tree)@.at(self.widget) == (Widget {
                children: final(tree)@.at(self.widget).children,
                kind: WidgetKind::Container(
                    ContainerState {
                        axes: final(tree)@.at(self.widget).container().axes,
                        ..old(tree)@.at(self.widget).container()
                    },
                ),
                resize_queued: true,
                ..old(tree)@.at(self.widget)
            }),
            r == final(tree)@.replacement(self.widget, width, height),
    {
        let ghost t = tree@;
        tree.disown_all(self.widget);
        proof {
            let u = tree@;
            let c = self.widget;
            assert forall|x: usize, b: usize|
                x != c && t.has(x) && #[trigger] u.at(x).links(b) implies t.at(x).links(b) by {
                assert(u.at(x).children == t.at(x).children);
            }
            assert forall|i: int| 0 <= i < children@.len() implies u.has((#[trigger] children@[i]).0)
                && (u.at(children@[i].0).parent is None || u.at(children@[i].0).parent == Some(c))
                && !u.reaches(children@[i].0, c) by {
                assert(t.has(children@[i].0));
                lemma_still_unreached(t, u, children@[i].0, c);
                if children@[i].0 == c {
                    assert(t.reaches(c, c));
                }
                assert(u.at(children@[i].0).parent is None);
            }
        }
        let ghost bare = tree@;
        adopt_children(tree, self.widget, children);
        let ghost filled = tree@;
        proof {
            assert(filled.at(self.widget).sound());
            lemma_replace(
                filled,
                self.widget,
                Widget { resize_queued: true, ..filled.at(self.widget) },
            );
        }
        tree.widgets[self.widget].resize_queued = true;
        proof {
            let c = self.widget;
            assert(tree@.widgets =~= filled.with(
                c,
                Widget { resize_queued: true, ..filled.at(c) },
            ).widgets);
            assert forall|x: usize| t.has(x) && x != c implies (#[trigger] tree@.at(x))
                == filled.at(x) && (bare.at(x) == t.at(x) || bare.at(x) == (Widget {
                parent: None,
                ..t.at(x)
            })) by {
                assert(filled.has(x) && bare.has(x));
            }
        }
        if width > 0 && height > 0 {
            self.place_children(tree, width, height)
        } else {
            None
        }
    }
}

/// The bounds of a container start at nothing and are as large as its
/// allocation; an extent below zero counts as none.
pub proof fn lemma_bounds_are_the_allocation(width: i32, height: i32)
    ensures
        TreeView::bounds(width, height).origin.x.value() == 0,
        TreeView::bounds(width, height).origin.y.value() == 0,
        0 <= width < 0x100_0000 ==> TreeView::bounds(width, height).size.width.value() == width
            * pow2(149),
        0 <= height < 0x100_0000 ==> TreeView::bounds(width, height).size.height.value() == height
            * pow2(149),
        width < 0 ==> TreeView::bounds(width, height).size.width.value() == 0,
        height < 0 ==> TreeView::bounds(width, height).size.height.value() == 0,
        width >= 0 ==> TreeView::bounds(width, height).size.width == Single::of_int(width as int),
        height >= 0 ==> TreeView::bounds(width, height).size.height == Single::of_int(
            height as int,
        ),
{
    lemma_constants();
    lemma_small_whole_is_exact(0);
    assert(0 * pow2(149) == 0);
    if 0 <= width < 0x100_0000 {
        lemma_small_whole_is_exact(width as int);
    }
    if 0 <= height < 0x100_0000 {
        lemma_small_whole_is_exact(height as int);
    }
}

/// What a container places its children under: the proposal that a layout
/// selected for it, whatever its bounds; without one, its bounds, but for the
/// axes on which it is scrolled, where it is free. It places them in its bounds
/// in any case, and places nothing where it has none.
pub proof fn lemma_placement_sources(t: TreeView, w: usize, width: i32, height: i32)
    requires
        t.wf(),
        t.has(w),
        t.at(w).is_container(),
    ensures
        t.at(w).children@.len() == 0 ==> t.placement(w, width, height) is None,
        t.at(w).children@.len() > 0 ==> (t.placement(w, width, height) matches Some(request) && {
            let bounds = TreeView::bounds(width, height);
            &&& request.bounds == bounds
            &&& t.at(w).container().selected_proposal matches Some(selected) ==> request.proposal
                == selected
            &&& t.at(w).container().selected_proposal is None ==> match t.scroll_axes_of(w) {
                None => request.proposal.width == Some(bounds.size.width)
                    && request.proposal.height == Some(bounds.size.height),
                Some((across, down)) => {
                    &&& across ==> request.proposal.width is None
                    &&& !across ==> request.proposal.width == Some(bounds.size.width)
                    &&& down ==> request.proposal.height is None
                    &&& !down ==> request.proposal.height == Some(bounds.size.height)
                },
            }
        }),
{
}

/// Once children were put into a container, they are its children in their
/// order with their axes, and it is the parent of each and of no other widget.
pub proof fn lemma_adopted_children_are_the_family(
    t: TreeView,
    u: TreeView,
    container: usize,
    children: Seq<(usize, StretchAxis)>,
    i: int,
    x: usize,
)
    requires
        u.adopted(t, container, children),
        t.has(x),
        x != container,
    ensures
        u.at(container).children@.len() == children.len(),
        0 <= i < children.len() ==> u.at(container).children@[i] == children[i].0,
        0 <= i < children.len() ==> u.at(container).container().axes@[i] == children[i].1,
        0 <= i < children.len() && children[i].0 == x ==> u.at(x).parent == Some(container),
        (forall|j: int| 0 <= j < children.len() ==> (#[trigger] children[j]).0 != x) ==> u.at(
            x,
        ).parent != Some(container),
        u.at(x) == (Widget { parent: u.at(x).parent, ..t.at(x) }),
{
    let ids = ids_of(children);
    if 0 <= i < children.len() {
        assert(ids[i] == children[i].0);
    }
    if ids.contains(x) {
        let j = choose|j: int| 0 <= j < ids.len() && ids[j] == x;
        assert(children[j].0 == x);
    }
}

/// New children are placed at once if and only if there are any and the
/// container holds an allocation with room in it.
pub proof fn lemma_new_children_are_placed_at_once(t: TreeView, w: usize, width: i32, height: i32)
    ensures
        t.replacement(w, width, height) is Some <==> t.at(w).children@.len() > 0 && width > 0
            && height > 0,
        t.replacement(w, width, height) matches Some(request) ==> request.bounds
            == TreeView::bounds(width, height) && t.placement(w, width, height) == Some(request),
{
}

/// A container takes what is delivered to it as its own proposal, and claims the
/// axis that its layout derives; it has no priority and measures itself.
pub proof fn lemma_containers_answer_by_their_layout(
    t: TreeView,
    answers: Seq<Option<StretchAxis>>,
    w: usize,
    proposal: ProposalSize,
)
    requires
        t.wf(),
        t.has(w),
        t.at(w).is_container(),
        t.marker(w) == container_marker(),
    ensures
        t.delivered(w, proposal).at(w).container().selected_proposal == Some(
            t.content_packet(w, proposal),
        ),
        t.axis_of(answers, w) == answers[w as int],
        t.priority_of(w) is None,
        t.measured_child(w) is None,
{
    crate::layout::laws::lemma_container_works_under_the_delivered_packet(t, w, proposal, 0, 0);
}

} // verus!
