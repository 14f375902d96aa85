//! A host whose one child can be replaced at any time.
//!
//! The host answers as its child does, whatever it holds at the moment, and
//! hands a replacement the packet that is still in force.

use crate::geometry::{Orientation, ProposalSize, StretchAxis};
use crate::layout::laws::{
    lemma_no_margin_comes_first, lemma_reoffer_repeats_the_delivery, not_below_zero,
};
use crate::layout::proposal::{
    deliver_proposal, install_axis_provider, install_measure_provider, install_priority_provider,
    install_proposal_sink, lemma_delivery_frame, lemma_retaining, repacked, retained_proposal,
};
use crate::layout::widget::{
    lemma_replace, lemma_still_unreached, AxisProvider, Margins, MeasureProvider,
    NaturalSize, PriorityProvider, ProposalSink, TreeView, Widget, WidgetKind, WidgetLayout, WidgetTree,
};
use vstd::prelude::*;

verus! {

/// What a dynamic host reports and does: all of it through its first child.
pub open spec fn dynamic_marker() -> WidgetLayout {
    WidgetLayout {
        axis_provider: Some(AxisProvider::FirstChild),
        priority_provider: Some(PriorityProvider::FirstChild),
        measure_provider: Some(MeasureProvider::FirstChild),
        proposal_sink: Some(ProposalSink::FirstChild),
        ..WidgetLayout::empty()
    }
}

/// Adds an empty host.
pub fn render_dynamic(tree: &mut WidgetTree) -> (r: usize)
    requires
        old(tree)@.wf(),
        old(tree)@.widgets.len() < usize::MAX,
    ensures
        final(tree)@.wf(),
        r == old(tree)@.widgets.len(),
        final(tree)@.widgets.len() == old(tree)@.widgets.len() + 1,
        forall|x: usize| old(tree)@.has(x) ==> (#[trigger] final(tree)@.at(x)) == old(tree)@.at(x),
        final(tree)@.at(r).kind == (WidgetKind::Linear {
            orientation: Orientation::Vertical,
            spacing: 0,
        }),
        final(tree)@.at(r).parent is None,
        final(tree)@.at(r).children@.len() == 0,
        final(tree)@.marker(r) == dynamic_marker(),
        final(tree)@.at(r).margins == (Margins { start: 0, end: 0, top: 0, bottom: 0 }),
        final(tree)@.at(r).visible,
        final(tree)@.at(r).natural == (NaturalSize { width: 0, height: 0 }),
        !final(tree)@.at(r).allocate_queued,
        !final(tree)@.at(r).resize_queued,
{
    let ghost t = tree@;
    let host: usize = tree.add_widget(
        WidgetKind::Linear { orientation: Orientation::Vertical, spacing: 0 },
    );
    let ghost added = tree@;
    install_axis_provider(tree, host, AxisProvider::FirstChild);
    install_priority_provider(tree, host, PriorityProvider::FirstChild);
    install_proposal_sink(tree, host, ProposalSink::FirstChild);
    install_measure_provider(tree, host, MeasureProvider::FirstChild);
    assert forall|x: usize| t.has(x) implies (#[trigger] tree@.at(x)) == t.at(x) by {
        assert(added.at(x) == t.at(x));
    }
    host
}

impl TreeView {
    /// Whether in this tree `child` has taken the place of all children of
    /// `host`, compared with `before`.
    pub open spec fn rehoused(self, before: TreeView, host: usize, child: usize) -> bool {
        &&& self.wf()
        &&& self.widgets.len() == before.widgets.len()
        &&& self.at(host).children@ == seq![child]
        &&& self.at(host) == (Widget { children: self.at(host).children, ..before.at(host) })
        &&& self.at(child) == (Widget { parent: Some(host), ..before.at(child) })
        &&& forall|x: usize|
            before.has(x) && x != host && x != child ==> (#[trigger] self.at(x)) == if before.at(
                x,
            ).parent == Some(host) {
                Widget { parent: None, ..before.at(x) }
            } else {
                before.at(x)
            }
    }

    /// This tree once `child` inherited the packet in force at `host`.
    pub open spec fn inherited(self, host: usize, child: usize) -> TreeView {
        match self.marker(host).retained_proposal {
            Some(packet) => self.delivered(child, packet),
            None => self,
        }
    }

    /// Whether this tree is `before` once `child` took the place of whatever
    /// `host` held.
    pub open spec fn replaced(self, before: TreeView, host: usize, child: usize) -> bool {
        exists|housed: TreeView|
            #![trigger housed.rehoused(before, host, child)]
            housed.rehoused(before, host, child) && self == housed.inherited(
                host,
                child,
            ).renegotiating(host)
    }

    /// This tree once `host` asked for a new size negotiation.
    pub open spec fn renegotiating(self, host: usize) -> TreeView {
        self.with(host, Widget { resize_queued: true, ..self.at(host) })
    }
}

/// Puts `child` in the place of whatever `host` holds. The packet in force is
/// delivered to it, and the host asks for a new size negotiation.
pub fn replace_child(tree: &mut WidgetTree, host: usize, child: usize)
    requires
        old(tree)@.wf(),
        old(tree)@.has(host),
        !old(tree)@.at(host).is_container(),
        old(tree)@.has(child),
        old(tree)@.at(child).parent is None,
        !old(tree)@.reaches(child, host),
    ensures
        final(tree)@.wf(),
        final(tree)@.replaced(old(tree)@, host, child),
{
    let ghost t = tree@;
    tree.disown_all(host);
    let ghost bare = tree@;
    proof {
        assert(child != host) by {
            if child == host {
                assert(t.reaches(host, host));
            }
        }
        assert forall|x: usize, b: usize|
            x != host && t.has(x) && #[trigger] bare.at(x).links(b) implies t.at(x).links(b) by {
            assert(bare.at(x).children == t.at(x).children);
        }
        lemma_still_unreached(t, bare, child, host);
        assert(bare.at(child) == t.at(child));
    }
    tree.append(host, child);
    let ghost housed = tree@;
    proof {
        assert(housed.at(host).children@ =~= seq![child]);
        assert forall|x: usize| t.has(x) && x != host && x != child implies (#[trigger] housed.at(x))
            == if t.at(x).parent == Some(host) {
            Widget { parent: None, ..t.at(x) }
        } else {
            t.at(x)
        } by {
            assert(bare.has(x));
            assert(housed.at(x) == bare.at(x));
        }
        assert(housed.rehoused(t, host, child));
    }
    if let Some(packet) = retained_proposal(tree, host) {
        proof {
            lemma_delivery_frame(housed, child, packet);
        }
        deliver_proposal(tree, child, packet);
    }
    let ghost fed = tree@;
    proof {
        assert(fed == housed.inherited(host, child));
        assert(fed.has(host));
        assert(fed.at(host).sound());
        lemma_replace(fed, host, Widget { resize_queued: true, ..fed.at(host) });
    }
    tree.widgets[host].resize_queued = true;
    assert(tree@.widgets =~= fed.renegotiating(host).widgets);
    assert(tree@ == housed.inherited(host, child).renegotiating(host));
}

/// A replacement inherits the packet in force at its host: inside its own
/// margins it is retained, and its sink runs on it. Where none is in force, or
/// the replacement has no sink, it is left as it was.
pub proof fn lemma_replacement_inherits_the_packet(
    t: TreeView,
    after: TreeView,
    host: usize,
    child: usize,
)
    requires
        t.has(host),
        t.has(child),
        child != host,
        after.replaced(t, host, child),
    ensures
        after.at(host).children@ == seq![child],
        after.at(child).parent == Some(host),
        after.marker(child) == match t.marker(host).retained_proposal {
            Some(packet) if t.marker(child).proposal_sink is Some => WidgetLayout {
                retained_proposal: Some(t.content_packet(child, packet)),
                ..t.marker(child)
            },
            _ => t.marker(child),
        },
        t.marker(host).retained_proposal matches Some(packet) ==> t.marker(child).proposal_sink
            == Some(ProposalSink::Container) ==> after.at(child).container().selected_proposal
            == Some(t.content_packet(child, packet)),
        exists|housed: TreeView|
            #![trigger housed.rehoused(t, host, child)]
            housed.rehoused(t, host, child) && after == (match t.marker(host).retained_proposal {
                Some(packet) if t.marker(child).proposal_sink is Some => housed.retaining(
                    child,
                    t.content_packet(child, packet),
                ).sunk(child, t.content_packet(child, packet)),
                _ => housed,
            }).renegotiating(host),
{
    let housed = choose|housed: TreeView|
        #![trigger housed.rehoused(t, host, child)]
        housed.rehoused(t, host, child) && after == housed.inherited(host, child).renegotiating(
            host,
        );
    assert(housed.has(child) && housed.has(host));
    if let Some(packet) = t.marker(host).retained_proposal {
        lemma_delivery_frame(housed, child, packet);
        assert(housed.content_packet(child, packet) == t.content_packet(child, packet));
        if t.marker(child).proposal_sink is Some {
            lemma_reoffer_repeats_the_delivery(housed, child, packet);
            assert(repacked(housed.at(child), after.at(child)));
            assert(repacked(housed.at(host), housed.inherited(host, child).at(host)));
            let inner = housed.retaining(child, t.content_packet(child, packet));
            lemma_retaining(housed, child, t.content_packet(child, packet));
            assert(housed.inherited(host, child) == inner.sunk(
                child,
                t.content_packet(child, packet),
            ));
        }
    }
}

/// What was last delivered to a host without margins outlives a swap of its
/// content: the new content works under the same offer, inside its own margins.
pub proof fn lemma_last_delivery_outlives_a_swap(
    t: TreeView,
    after: TreeView,
    host: usize,
    child: usize,
    proposal: ProposalSize,
)
    requires
        t.wf(),
        t.has(host),
        t.at(host).margins == (Margins { start: 0, end: 0, top: 0, bottom: 0 }),
        t.marker(host).proposal_sink is Some,
        t.has(child),
        child != host,
        t.marker(child).proposal_sink is Some,
        not_below_zero(proposal.width) || t.at(child).margins.start + t.at(child).margins.end >= 0,
        not_below_zero(proposal.height) || t.at(child).margins.top + t.at(child).margins.bottom
            >= 0,
        after.replaced(t.delivered(host, proposal), host, child),
    ensures
        after.at(host).children@ == seq![child],
        after.marker(child).retained_proposal == Some(t.content_packet(child, proposal)),
{
    let u = t.delivered(host, proposal);
    lemma_delivery_frame(t, host, proposal);
    lemma_reoffer_repeats_the_delivery(t, host, proposal);
    assert(t.at(child).sound());
    let margins = t.at(child).margins;
    lemma_no_margin_comes_first(proposal.width, margins.start + margins.end);
    lemma_no_margin_comes_first(proposal.height, margins.top + margins.bottom);
    assert(repacked(t.at(child), u.at(child)));
    lemma_replacement_inherits_the_packet(u, after, host, child);
}

/// A host without a child answers the axis and the priority that claim
/// nothing, and leaves its measurement to the toolkit.
pub proof fn lemma_empty_host_claims_nothing(
    t: TreeView,
    answers: Seq<Option<StretchAxis>>,
    host: usize,
)
    requires
        t.wf(),
        t.has(host),
        t.marker(host) == dynamic_marker(),
        t.at(host).children@.len() == 0,
    ensures
        t.axis_of(answers, host) == Some(StretchAxis::Neither),
        t.priority_of(host) == Some(0i32),
        t.measured_child(host) is None,
{
}

/// A host with a child answers as the child does.
pub proof fn lemma_host_answers_as_its_child(
    t: TreeView,
    answers: Seq<Option<StretchAxis>>,
    host: usize,
    child: usize,
)
    requires
        t.wf(),
        t.has(host),
        t.marker(host).axis_provider == Some(AxisProvider::FirstChild),
        t.marker(host).priority_provider == Some(PriorityProvider::FirstChild),
        t.marker(host).priority is None,
        t.marker(host).measure_provider == Some(MeasureProvider::FirstChild),
        t.first_child(host) == Some(child),
    ensures
        t.axis_of(answers, host) == Some(
            t.axis_of(answers, child).unwrap_or(StretchAxis::Neither),
        ),
        t.priority_of(host) == Some(t.priority_of(child).unwrap_or(0)),
        t.measured_child(host) == Some(child),
{
    assert(t.at(host).children@.contains(child));
    assert(t.at(host).links(child));
    reveal_with_fuel(TreeView::axis_of, 2);
    reveal_with_fuel(TreeView::priority_of, 2);
}

/// A swap asks for a new size negotiation of the host, and takes the former
/// content out of the tree; a host keeps its own packet.
pub proof fn lemma_swap_is_negotiated(
    t: TreeView,
    after: TreeView,
    host: usize,
    child: usize,
    former: usize,
)
    requires
        t.wf(),
        t.has(host),
        t.has(child),
        child != host,
        after.replaced(t, host, child),
        t.has(former),
        former != child,
        t.at(former).parent == Some(host),
        former != host,
    ensures
        after.at(host).resize_queued,
        after.at(former).parent is None,
        after.marker(host).proposal_sink == t.marker(host).proposal_sink,
        !after.at(host).children@.contains(former),
{
    let housed = choose|housed: TreeView|
        #![trigger housed.rehoused(t, host, child)]
        housed.rehoused(t, host, child) && after == housed.inherited(host, child).renegotiating(
            host,
        );
    assert(housed.has(child) && housed.has(host) && housed.has(former));
    assert(housed.at(former) == (Widget { parent: None, ..t.at(former) }));
    if let Some(packet) = housed.marker(host).retained_proposal {
        lemma_delivery_frame(housed, child, packet);
        assert(repacked(housed.at(former), housed.inherited(host, child).at(former)));
        assert(repacked(housed.at(host), housed.inherited(host, child).at(host)));
    }
    assert(after.at(host).children@ == seq![child]);
}

} // verus!
