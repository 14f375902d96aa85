//! What holds of the layout protocol as a whole.

use crate::components::layout::fixed_container_widget::PlacementRequest;
use crate::geometry::{DimensionsView, Orientation, ProposalSize, StretchAxis};
use crate::layout::proposal::{
    lemma_delivery_frame, lemma_retaining, lemma_selecting, lemma_sink_frame, repacked, shrunk,
    shrunk_extent,
};
use crate::layout::proposal::{row_packet, scroll_packet};
use crate::layout::subview::{leaf_extent, surrounded, MeasureTarget};
use crate::layout::widget::{
    lemma_step_reaches, AxisProvider, Margins, MeasureProvider, PriorityProvider, ProposalSink,
    TreeView,
};
use crate::rounding::round_units;
use crate::single::{
    lemma_add_zero, lemma_constants, lemma_finite_sums_are_numbers, lemma_nothing_times_a_whole, lemma_of_units_keeps_the_sign,
    lemma_small_whole_is_exact, lemma_small_wholes_add, lemma_small_wholes_multiply,
    lemma_small_wholes_subtract, lemma_whole_is_finite, Single, NEGATIVE_ZERO, ZERO,
};
use vstd::prelude::*;

verus! {

/// Whether every margin is one that single precision holds exactly.
pub open spec fn modest(margins: Margins) -> bool {
    &&& -0x100_0000 < margins.start < 0x100_0000
    &&& -0x100_0000 < margins.end < 0x100_0000
    &&& -0x100_0000 < margins.top < 0x100_0000
    &&& -0x100_0000 < margins.bottom < 0x100_0000
}

/// Whether a probe's extent is one that a layout offers: none, an infinite one,
/// or one that is not below zero.
pub open spec fn proper(extent: Option<Single>) -> bool {
    match extent {
        Some(value) => !value.finite() || !value.negative(),
        None => true,
    }
}

/// A probe that asks a question, for the ideal or for the largest extent, asks
/// the same inside any margins.
pub proof fn lemma_questions_pass_margins(extent: Option<Single>, margin: Single)
    requires
        extent is None || !extent->0.finite(),
    ensures
        shrunk_extent(extent, margin) == extent,
{
}

/// No margin takes an extent below zero.
pub proof fn lemma_shrinking_stops_at_zero(value: Single, margin: Single)
    requires
        value.finite(),
        !margin.nan(),
    ensures
        !Single::less(
            shrunk_extent(Some(value), margin)->0,
            Single { bits: ZERO },
        ),
{
    crate::rounding::lemma_zero_decodes();
}

/// Without margins a proposal stays as it is.
pub proof fn lemma_no_margin_changes_nothing(proposal: ProposalSize)
    requires
        proper(proposal.width),
        proper(proposal.height),
    ensures
        shrunk(proposal, Single::of_int(0), Single::of_int(0)) == proposal,
{
    lemma_no_margin_extent(proposal.width);
    lemma_no_margin_extent(proposal.height);
}

proof fn lemma_no_margin_extent(extent: Option<Single>)
    requires
        proper(extent),
    ensures
        shrunk_extent(extent, Single::of_int(0)) == extent,
{
    lemma_zero_is_zero();
    crate::rounding::lemma_zero_decodes();
    if let Some(value) = extent {
        if value.finite() {
            lemma_add_zero(value, Single::of_int(0).negated());
        }
    }
}

/// Whether an extent that is a length is not below zero.
pub open spec fn not_below_zero(extent: Option<Single>) -> bool {
    match extent {
        Some(value) => !value.finite() || value.value() >= 0,
        None => true,
    }
}

/// An extent that a margin takes up is nothing.
proof fn lemma_taken_up(value: Single, margin: Single)
    requires
        value.finite(),
        margin.finite(),
        value.value() <= margin.value(),
    ensures
        shrunk_extent(Some(value), margin) == Some(Single { bits: ZERO }),
{
    crate::rounding::lemma_zero_decodes();
    assert(margin.negated().value() == -margin.value());
    let rest = Single::difference(value, margin);
    let below = (margin.value() - value.value()) as nat;
    lemma_of_units_keeps_the_sign(true, round_units(below, 0, 24));
    assert(rest.negative() || rest == (Single { bits: ZERO }));
}

/// Taking no margin off before another makes no difference: to a length that is
/// not below zero, or where the other is not.
pub proof fn lemma_no_margin_comes_first(extent: Option<Single>, margin: int)
    requires
        -0x1_0000_0000 <= margin <= 0x1_0000_0000,
        not_below_zero(extent) || margin >= 0,
    ensures
        shrunk_extent(shrunk_extent(extent, Single::of_int(0)), Single::of_int(margin))
            == shrunk_extent(extent, Single::of_int(margin)),
{
    let zero = Single { bits: ZERO };
    let m = Single::of_int(margin);
    lemma_zero_is_zero();
    lemma_whole_is_finite(margin);
    crate::rounding::lemma_zero_decodes();
    if let Some(value) = extent {
        if value.finite() {
            if !value.negative() {
                lemma_no_margin_extent(extent);
            } else {
                lemma_taken_up(value, zero);
                if margin >= 0 {
                    lemma_of_units_keeps_the_sign(
                        false,
                        round_units(margin as nat * vstd::arithmetic::power2::pow2(149), 0, 24),
                    );
                    lemma_taken_up(value, m);
                    lemma_taken_up(zero, m);
                } else {
                    assert(value.value() == 0);
                    assert(m.negated().value() == -m.value());
                    if m.value() >= 0 {
                        lemma_taken_up(value, m);
                        lemma_taken_up(zero, m);
                    }
                }
            }
        }
    }
}

proof fn lemma_zero_is_zero()
    ensures
        Single::of_int(0) == (Single { bits: ZERO }),
{
    lemma_small_wholes_add(0, 0);
    lemma_small_whole_is_exact(0);
    assert(0 * vstd::arithmetic::power2::pow2(149) == 0);
}

/// Measurement and placement see the same content box: the probe inside a
/// widget's margins is the packet that a delivery of the same proposal hands to
/// its content. So a widget is placed under what it was measured under.
pub proof fn lemma_probe_is_packet(t: TreeView, w: usize, proposal: ProposalSize)
    requires
        modest(t.at(w).margins),
    ensures
        t.inner_probe(w, proposal) == t.content_packet(w, proposal),
{
    let margins = t.at(w).margins;
    lemma_small_wholes_add(margins.start as int, margins.end as int);
    lemma_small_wholes_add(margins.top as int, margins.bottom as int);
}

/// A transparent host passes every probe on: what answers for its content
/// answers for it, with the same probe but for the host's own margins.
pub proof fn lemma_transparent_host_passes_probes_on(
    t: TreeView,
    answers: Seq<Option<StretchAxis>>,
    w: usize,
    content: usize,
    proposal: ProposalSize,
    fallback: StretchAxis,
)
    requires
        t.wf(),
        t.has(w),
        t.marker(w).measure_provider == Some(MeasureProvider::Content(content)),
    ensures
        ({
            let whole = t.probe(answers, w, proposal, fallback);
            let inner = t.probe(
                answers,
                content,
                t.inner_probe(w, proposal),
                t.resolved_axis(answers, w, fallback),
            );
            &&& whole.0 == seq![w] + inner.0
            &&& whole.1 == inner.1
        }),
        t.at(w).margins == (Margins { start: 0, end: 0, top: 0, bottom: 0 }) && proper(
            proposal.width,
        ) && proper(proposal.height) ==> t.inner_probe(w, proposal) == proposal,
{
    assert(t.at(w).links(content));
    reveal_with_fuel(TreeView::probe, 2);
    if t.at(w).margins == (Margins { start: 0, end: 0, top: 0, bottom: 0 }) && proper(
        proposal.width,
    ) && proper(proposal.height) {
        lemma_probe_is_packet(t, w, proposal);
        lemma_no_margin_changes_nothing(proposal);
    }
}

/// A widget that is transparent to its content reports the content's axis and,
/// unless it has a priority of its own, the content's priority.
pub proof fn lemma_transparent_host_reports_its_content(
    t: TreeView,
    answers: Seq<Option<StretchAxis>>,
    w: usize,
    content: usize,
)
    requires
        t.wf(),
        t.has(w),
        t.marker(w).axis_provider == Some(AxisProvider::Content(content)),
        t.marker(w).priority_provider == Some(PriorityProvider::Content(content)),
    ensures
        t.axis_of(answers, content) matches Some(axis) ==> t.axis_of(answers, w) == Some(axis),
        t.marker(w).priority is None ==> t.priority_of(w) == Some(
            t.priority_of(content).unwrap_or(0),
        ),
        t.marker(w).priority matches Some(priority) ==> t.priority_of(w) == Some(priority),
{
    assert(t.at(w).links(content));
    reveal_with_fuel(TreeView::axis_of, 2);
    reveal_with_fuel(TreeView::priority_of, 2);
}

/// A scroll annotation holds for everything below it up to the next one.
pub proof fn lemma_scroll_axes_are_inherited(t: TreeView, w: usize, parent: usize)
    requires
        t.wf(),
        t.has(w),
        t.at(w).parent == Some(parent),
    ensures
        t.marker(w).scroll_axes is None ==> t.scroll_axes_of(w) == t.scroll_axes_of(parent),
        t.marker(w).scroll_axes is Some ==> t.scroll_axes_of(w) == t.marker(w).scroll_axes,
{
    assert(t.has_home(w));
    assert(t.at(parent).links(w));
    reveal_with_fuel(TreeView::scroll_axes_of, 2);
}

/// Without margins an answer stays as it is: its size and its guides.
pub proof fn lemma_no_margin_surrounds_nothing(inner: DimensionsView)
    requires
        !inner.size.width.nan() && inner.size.width.bits != NEGATIVE_ZERO,
        !inner.size.height.nan() && inner.size.height.bits != NEGATIVE_ZERO,
        forall|i: int|
            0 <= i < inner.horizontal_guides.len() ==> !(#[trigger] inner.horizontal_guides[i]).1.nan()
                && inner.horizontal_guides[i].1.bits != NEGATIVE_ZERO,
        forall|i: int|
            0 <= i < inner.vertical_guides.len() ==> !(#[trigger] inner.vertical_guides[i]).1.nan()
                && inner.vertical_guides[i].1.bits != NEGATIVE_ZERO,
    ensures
        surrounded(Margins { start: 0, end: 0, top: 0, bottom: 0 }, inner) == inner,
{
    let none = Margins { start: 0, end: 0, top: 0, bottom: 0 };
    let outer = surrounded(none, inner);
    lemma_zero_is_zero();
    lemma_small_wholes_add(0, 0);
    let zero = Single { bits: ZERO };
    lemma_add_zero(inner.size.width, zero);
    lemma_add_zero(inner.size.height, zero);
    assert forall|i: int| 0 <= i < inner.horizontal_guides.len() implies outer.horizontal_guides[i]
        == #[trigger] inner.horizontal_guides[i] by {
        lemma_add_zero(inner.horizontal_guides[i].1, zero);
    }
    assert forall|i: int| 0 <= i < inner.vertical_guides.len() implies outer.vertical_guides[i]
        == #[trigger] inner.vertical_guides[i] by {
        lemma_add_zero(inner.vertical_guides[i].1, zero);
    }
    assert(outer.horizontal_guides =~= inner.horizontal_guides);
    assert(outer.vertical_guides =~= inner.vertical_guides);
}

/// A delivery to `w` leaves every widget alone that does not stand below `w`.
proof fn lemma_delivery_stays_below(t: TreeView, w: usize, proposal: ProposalSize)
    requires
        t.wf(),
        t.has(w),
    ensures
        forall|x: usize|
            t.has(x) && x != w && t.rank[x as int] >= t.rank[w as int] ==> (
            #[trigger] t.delivered(w, proposal).at(x)) == t.at(x),
    decreases t.rank[w as int], 1nat,
{
    if t.marker(w).proposal_sink is Some {
        let packet = t.content_packet(w, proposal);
        let r = t.retaining(w, packet);
        lemma_retaining(t, w, packet);
        lemma_sink_stays_below(r, w, packet);
        assert forall|x: usize|
            t.has(x) && x != w && t.rank[x as int] >= t.rank[w as int] implies (
        #[trigger] t.delivered(w, proposal).at(x)) == t.at(x) by {
            assert(r.has(x));
            assert(r.sunk(w, packet).at(x) == r.at(x));
        }
    }
}

/// A sink of `w` leaves every widget alone that does not stand below `w`, and
/// of `w` itself all but a container's selection.
proof fn lemma_sink_stays_below(t: TreeView, w: usize, packet: ProposalSize)
    requires
        t.wf(),
        t.has(w),
    ensures
        forall|x: usize|
            t.has(x) && x != w && t.rank[x as int] >= t.rank[w as int] ==> (
            #[trigger] t.sunk(w, packet).at(x)) == t.at(x),
        t.sunk(w, packet).marker(w) == t.marker(w),
        t.marker(w).proposal_sink != Some(ProposalSink::Container) ==> t.sunk(w, packet).at(w)
            == t.at(w),
    decreases t.rank[w as int], 0nat,
{
    let u = t.sunk(w, packet);
    match t.marker(w).proposal_sink {
        None => {},
        Some(ProposalSink::Forward(content)) => {
            assert(t.at(w).links(content));
            lemma_delivery_stays_below(t, content, packet);
            assert(u == t.delivered(content, packet));
            assert(u.at(w) == t.at(w));
        },
        Some(ProposalSink::FirstChild) => {
            if let Some(child) = t.first_child(w) {
                assert(t.at(w).children@.contains(child));
                assert(t.at(w).links(child));
                lemma_delivery_stays_below(t, child, packet);
                assert(u == t.delivered(child, packet));
                assert(u.at(w) == t.at(w));
            }
        },
        Some(ProposalSink::BoxSlot(content)) => {
            assert(t.at(w).links(content));
            let slot = t.content_slot(w, content, packet);
            lemma_delivery_stays_below(t, content, slot);
            assert(u == t.delivered(content, slot));
            assert(u.at(w) == t.at(w));
        },
        Some(ProposalSink::Container) => {},
    }
}

/// Packets and requests for allocation have no part in what a box's chrome
/// takes up.
pub proof fn lemma_chrome_ignores_packets(t: TreeView, u: TreeView, row: usize, content: usize)
    requires
        t.wf(),
        t.has(row),
        t.only_repacked(u),
        t.at(row).kind is Linear,
    ensures
        u.chrome_extent(row, content) == t.chrome_extent(row, content),
        u.at(row).kind == t.at(row).kind,
{
    let children = t.at(row).children@;
    assert(repacked(t.at(row), u.at(row)));
    assert forall|i: int| 0 <= i < children.len() implies t.has(#[trigger] children[i]) by {
        assert(t.at(row).children@.contains(children[i]));
    }
    lemma_siblings_ignore_packets(t, u, children, t.at(row).kind->orientation, content);
}

proof fn lemma_siblings_ignore_packets(
    t: TreeView,
    u: TreeView,
    siblings: Seq<usize>,
    orientation: Orientation,
    content: usize,
)
    requires
        t.only_repacked(u),
        forall|i: int| 0 <= i < siblings.len() ==> t.has(#[trigger] siblings[i]),
    ensures
        u.occupied(siblings, orientation, content) == t.occupied(siblings, orientation, content),
        u.visible_count(siblings) == t.visible_count(siblings),
    decreases siblings.len(),
{
    if siblings.len() > 0 {
        let rest = siblings.drop_last();
        assert forall|i: int| 0 <= i < rest.len() implies t.has(#[trigger] rest[i]) by {
            assert(rest[i] == siblings[i]);
        }
        lemma_siblings_ignore_packets(t, u, rest, orientation, content);
        assert(t.has(siblings[siblings.len() - 1]));
        assert(repacked(t.at(siblings.last()), u.at(siblings.last())));
    }
}

/// Delivering a proposal again changes nothing: the same packets are in force
/// all the way down, and nobody asks for another allocation.
pub proof fn lemma_delivery_is_idempotent(t: TreeView, w: usize, proposal: ProposalSize)
    requires
        t.wf(),
        t.has(w),
    ensures
        t.delivered(w, proposal).delivered(w, proposal) == t.delivered(w, proposal),
    decreases t.rank[w as int], 1nat,
{
    if t.marker(w).proposal_sink is Some {
        let packet = t.content_packet(w, proposal);
        let r = t.retaining(w, packet);
        lemma_retaining(t, w, packet);
        lemma_sink_frame(r, w, packet);
        lemma_sink_stays_below(r, w, packet);
        lemma_sink_is_idempotent(r, w, packet);
        let u = r.sunk(w, packet);
        assert(r.has(w));
        assert(repacked(r.at(w), u.at(w)));
        assert(u.content_packet(w, proposal) == packet);
        assert(u.retaining(w, packet).widgets =~= u.widgets);
        assert(u.retaining(w, packet) == u);
    }
}

/// Running a sink again on the same packet changes nothing.
proof fn lemma_sink_is_idempotent(t: TreeView, w: usize, packet: ProposalSize)
    requires
        t.wf(),
        t.has(w),
    ensures
        t.sunk(w, packet).sunk(w, packet) == t.sunk(w, packet),
    decreases t.rank[w as int], 0nat,
{
    let u = t.sunk(w, packet);
    lemma_sink_frame(t, w, packet);
    lemma_sink_stays_below(t, w, packet);
    match t.marker(w).proposal_sink {
        None => {},
        Some(ProposalSink::Forward(content)) => {
            assert(t.at(w).links(content));
            lemma_delivery_is_idempotent(t, content, packet);
        },
        Some(ProposalSink::FirstChild) => {
            if let Some(child) = t.first_child(w) {
                assert(t.at(w).children@.contains(child));
                assert(t.at(w).links(child));
                lemma_delivery_is_idempotent(t, child, packet);
            }
        },
        Some(ProposalSink::BoxSlot(content)) => {
            assert(t.at(w).links(content));
            assert(t.at(w).sound());
            lemma_chrome_ignores_packets(t, u, w, content);
            lemma_delivery_is_idempotent(t, content, t.content_slot(w, content, packet));
        },
        Some(ProposalSink::Container) => {
            assert(t.at(w).sound());
            lemma_selecting(t, w, packet);
            assert(u.selecting(w, packet).widgets =~= u.widgets);
        },
    }
}

/// Offering the packet in force again, right after it was delivered, changes
/// nothing; and the packet in force is the one inside the widget's margins.
pub proof fn lemma_reoffer_repeats_the_delivery(t: TreeView, w: usize, proposal: ProposalSize)
    requires
        t.wf(),
        t.has(w),
        t.marker(w).proposal_sink is Some,
    ensures
        ({
            let u = t.delivered(w, proposal);
            let packet = t.content_packet(w, proposal);
            &&& u.marker(w).retained_proposal == Some(packet)
            &&& u.sunk(w, packet) == u
        }),
{
    let packet = t.content_packet(w, proposal);
    let r = t.retaining(w, packet);
    lemma_retaining(t, w, packet);
    lemma_sink_stays_below(r, w, packet);
    lemma_sink_is_idempotent(r, w, packet);
}

/// A widget without a sink ignores every delivery.
pub proof fn lemma_deliveries_need_a_sink(t: TreeView, w: usize, proposal: ProposalSize)
    requires
        t.wf(),
        t.has(w),
        t.marker(w).proposal_sink is None,
    ensures
        t.delivered(w, proposal) == t,
{
}

/// A container works under the packet that was delivered to it, whatever bounds
/// it is allocated. A packet that differs from the one before asks for a new
/// allocation even where the bounds stay the same, and an equal one does not.
pub proof fn lemma_container_works_under_the_delivered_packet(
    t: TreeView,
    w: usize,
    proposal: ProposalSize,
    width: i32,
    height: i32,
)
    requires
        t.wf(),
        t.has(w),
        t.marker(w).proposal_sink == Some(ProposalSink::Container),
    ensures
        ({
            let u = t.delivered(w, proposal);
            let packet = t.content_packet(w, proposal);
            &&& u.at(w).container().selected_proposal == Some(packet)
            &&& u.at(w).allocate_queued == (t.at(w).allocate_queued || t.at(
                w,
            ).container().selected_proposal != Some(packet))
            &&& t.at(w).children@.len() > 0 ==> u.placement(w, width, height) == Some(
                PlacementRequest { bounds: TreeView::bounds(width, height), proposal: packet },
            )
        }),
{
    let packet = t.content_packet(w, proposal);
    lemma_retaining(t, w, packet);
}

/// A proposal that a transparent host without margins is delivered reaches its
/// content unchanged.
pub proof fn lemma_transparent_host_forwards_deliveries(
    t: TreeView,
    w: usize,
    content: usize,
    proposal: ProposalSize,
)
    requires
        t.wf(),
        t.has(w),
        t.marker(w).proposal_sink == Some(ProposalSink::Forward(content)),
        t.at(w).margins == (Margins { start: 0, end: 0, top: 0, bottom: 0 }),
        proper(proposal.width),
        proper(proposal.height),
    ensures
        t.delivered(w, proposal) == t.retaining(w, proposal).delivered(content, proposal),
{
    lemma_no_margin_changes_nothing(proposal);
    lemma_retaining(t, w, proposal);
    assert(t.at(w).links(content));
    reveal_with_fuel(TreeView::delivered, 3);
    reveal_with_fuel(TreeView::sunk, 3);
}

/// Once nothing is left to be asked about a widget, its axis is settled: answers
/// that come in later change nothing.
pub proof fn lemma_settled_axis(
    t: TreeView,
    answers: Seq<Option<StretchAxis>>,
    later: Seq<Option<StretchAxis>>,
    w: usize,
)
    requires
        t.wf(),
        t.has(w),
        t.next_question(answers, w) is None,
        forall|x: usize|
            t.has(x) && answers[x as int] is Some ==> later[x as int] == #[trigger] answers[x as int],
    ensures
        t.axis_of(later, w) == t.axis_of(answers, w),
        t.next_question(later, w) is None,
    decreases t.rank[w as int],
{
    match t.marker(w).axis_provider {
        Some(AxisProvider::Content(content)) => {
            assert(t.at(w).links(content));
            lemma_settled_axis(t, answers, later, content);
        },
        Some(AxisProvider::FirstChild) => {
            if let Some(child) = t.first_child(w) {
                assert(t.at(w).children@.contains(child));
                assert(t.at(w).links(child));
                lemma_settled_axis(t, answers, later, child);
            }
        },
        Some(AxisProvider::Container) => {
            if !t.answers_as_recorded(w) {
                assert(answers[w as int] is Some);
                assert(later[w as int] == answers[w as int]);
            }
        },
        _ => {},
    }
}

/// No native widget answers less than its minimum, or than its natural extent
/// where that is smaller still.
pub proof fn lemma_leaf_respects_its_minimum(
    proposed: Option<Single>,
    fills: bool,
    minimum: i32,
    natural: i32,
)
    ensures
        !Single::less(
            leaf_extent(proposed, fills, minimum, natural),
            Single::of_int(if minimum < natural {
                minimum as int
            } else {
                natural as int
            }),
        ),
{
    lemma_whole_is_finite(minimum as int);
    lemma_whole_is_finite(natural as int);
}

/// A native widget that is proposed nothing answers its natural extent.
pub proof fn lemma_unproposed_leaf_is_natural(fills: bool, minimum: i32, natural: i32)
    requires
        -0x100_0000 < minimum < 0x100_0000,
        -0x100_0000 < natural < 0x100_0000,
    ensures
        leaf_extent(None, fills, minimum, natural) == Single::of_int(natural as int),
{
    lemma_small_whole_is_exact(minimum as int);
    lemma_small_whole_is_exact(natural as int);
    let unit = vstd::arithmetic::power2::pow2(149) as int;
    vstd::arithmetic::power2::lemma_pow2_pos(149);
    if minimum < natural {
        assert(minimum * unit < natural * unit) by (nonlinear_arith)
            requires
                minimum < natural,
                unit > 0,
        ;
    }
}

/// A host's answer is its content's answer inside the host's own margins, size
/// and guides alike.
pub proof fn lemma_hosts_answer_around_their_content(
    t: TreeView,
    w: usize,
    hops: Seq<usize>,
    inner: DimensionsView,
)
    ensures
        t.folded(seq![w] + hops, inner) == surrounded(t.at(w).margins, t.folded(hops, inner)),
    decreases hops.len(),
{
    let whole = seq![w] + hops;
    reveal_with_fuel(TreeView::folded, 2);
    if hops.len() == 0 {
        assert(whole =~= seq![w]);
        assert(whole.drop_last() =~= seq![]);
    } else {
        assert(whole.drop_last() =~= seq![w] + hops.drop_last());
        assert(whole.last() == hops.last());
        lemma_hosts_answer_around_their_content(
            t,
            w,
            hops.drop_last(),
            surrounded(t.at(hops.last()).margins, inner),
        );
    }
}

/// What a widget further up retains has no part in a delivery: it makes no
/// difference which comes first.
proof fn lemma_retaining_above_commutes(
    t: TreeView,
    above: usize,
    kept: ProposalSize,
    w: usize,
    proposal: ProposalSize,
)
    requires
        t.wf(),
        t.has(above),
        t.has(w),
        t.rank[w as int] < t.rank[above as int],
    ensures
        t.retaining(above, kept).delivered(w, proposal) == t.delivered(w, proposal).retaining(
            above,
            kept,
        ),
    decreases t.rank[w as int], 1nat,
{
    let r = t.retaining(above, kept);
    lemma_retaining(t, above, kept);
    if t.marker(w).proposal_sink is Some {
        let packet = t.content_packet(w, proposal);
        let inner = t.retaining(w, packet);
        lemma_retaining(t, w, packet);
        lemma_retaining(r, w, packet);
        assert(r.retaining(w, packet).widgets =~= inner.retaining(above, kept).widgets);
        assert(r.retaining(w, packet) == inner.retaining(above, kept));
        lemma_sunk_above_commutes(inner, above, kept, w, packet);
    }
}

proof fn lemma_sunk_above_commutes(
    t: TreeView,
    above: usize,
    kept: ProposalSize,
    w: usize,
    packet: ProposalSize,
)
    requires
        t.wf(),
        t.has(above),
        t.has(w),
        t.rank[w as int] < t.rank[above as int],
    ensures
        t.retaining(above, kept).sunk(w, packet) == t.sunk(w, packet).retaining(above, kept),
    decreases t.rank[w as int], 0nat,
{
    let r = t.retaining(above, kept);
    lemma_retaining(t, above, kept);
    assert(r.at(w) == t.at(w));
    match t.marker(w).proposal_sink {
        None => {},
        Some(ProposalSink::Forward(content)) => {
            assert(t.at(w).links(content));
            assert(r.at(w).links(content));
            lemma_retaining_above_commutes(t, above, kept, content, packet);
        },
        Some(ProposalSink::FirstChild) => {
            if let Some(child) = t.first_child(w) {
                assert(t.at(w).children@.contains(child));
                assert(t.at(w).links(child));
                lemma_retaining_above_commutes(t, above, kept, child, packet);
            }
        },
        Some(ProposalSink::BoxSlot(content)) => {
            assert(t.at(w).links(content));
            assert(t.at(w).sound());
            assert forall|x: usize| #[trigger] t.has(x) implies repacked(t.at(x), r.at(x)) by {}
            lemma_chrome_ignores_packets(t, r, w, content);
            lemma_retaining_above_commutes(
                t,
                above,
                kept,
                content,
                t.content_slot(w, content, packet),
            );
        },
        Some(ProposalSink::Container) => {
            assert(r.selecting(w, packet).widgets =~= t.selecting(w, packet).retaining(
                above,
                kept,
            ).widgets);
        },
    }
}

impl TreeView {
    /// Whether a probe and a delivery take the same way from `w`: through
    /// transparent hosts with modest margins to a container.
    pub open spec fn aligned(self, w: usize) -> bool
        decreases self.rank[w as int],
        when self.wf() && self.has(w)
    {
        &&& modest(self.at(w).margins)
        &&& match self.measured_child(w) {
            Some(child) => {
                proof {
                    if self.marker(w).measure_provider == Some(MeasureProvider::FirstChild) {
                        assert(self.at(w).children@.contains(child));
                    }
                    assert(self.at(w).links(child));
                }
                &&& self.aligned(child)
                &&& self.marker(w).proposal_sink == Some(ProposalSink::Forward(child)) || (
                self.marker(w).proposal_sink == Some(ProposalSink::FirstChild) && self.first_child(
                    w,
                ) == Some(child))
            },
            None => {
                &&& self.marker(w).measure_provider is None
                &&& self.at(w).is_container()
                &&& self.marker(w).proposal_sink == Some(ProposalSink::Container)
            },
        }
    }
}

/// A container is placed under what it was measured under: the proposal that
/// reaches it through transparent hosts in a measurement is the one it works
/// under once a layout selects that measurement's proposal for the outermost
/// host.
pub proof fn lemma_placed_as_measured(
    t: TreeView,
    answers: Seq<Option<StretchAxis>>,
    w: usize,
    proposal: ProposalSize,
    fallback: StretchAxis,
)
    requires
        t.wf(),
        t.has(w),
        t.aligned(w),
    ensures
        match t.probe(answers, w, proposal, fallback).1 {
            MeasureTarget::Container { widget, proposal: inner } => t.has(widget) && t.at(
                widget,
            ).is_container() && t.delivered(w, proposal).at(
                widget,
            ).container().selected_proposal == Some(inner) && t.rank[widget as int]
                <= t.rank[w as int],
            _ => false,
        },
    decreases t.rank[w as int],
{
    let packet = t.content_packet(w, proposal);
    let r = t.retaining(w, packet);
    lemma_probe_is_packet(t, w, proposal);
    lemma_retaining(t, w, packet);
    reveal_with_fuel(TreeView::probe, 2);
    reveal_with_fuel(TreeView::aligned, 2);
    match t.measured_child(w) {
        Some(child) => {
            if t.marker(w).measure_provider == Some(MeasureProvider::FirstChild) {
                assert(t.at(w).children@.contains(child));
            }
            assert(t.at(w).links(child));
            let axis = t.resolved_axis(answers, w, fallback);
            lemma_placed_as_measured(t, answers, child, packet, axis);
            lemma_retaining_above_commutes(t, w, packet, child, packet);
            lemma_delivery_frame(t, child, packet);
            reveal_with_fuel(TreeView::delivered, 3);
            reveal_with_fuel(TreeView::sunk, 3);
            assert(t.delivered(w, proposal) == r.delivered(child, packet));
        },
        None => {},
    }
}

/// Packets and requests for allocation have no part in where steps of layout
/// lead.
pub proof fn lemma_repacking_keeps_reach(t: TreeView, u: TreeView, a: usize, b: usize)
    requires
        t.only_repacked(u),
    ensures
        t.reaches(a, b) == u.reaches(a, b),
{
    assert forall|s: Set<usize>| #[trigger] t.closed(s) == u.closed(s) by {
        assert forall|x: usize, y: usize| t.has(x) implies #[trigger] t.at(x).links(y) == u.at(
            x,
        ).links(y) by {
            assert(repacked(t.at(x), u.at(x)));
        }
        if t.closed(s) {
            assert forall|x: usize, y: usize|
                s.contains(x) && u.has(x) && #[trigger] u.at(x).links(
                    y,
                ) implies #[trigger] s.contains(y) by {
                assert(t.at(x).links(y));
            }
        }
        if u.closed(s) {
            assert forall|x: usize, y: usize|
                s.contains(x) && t.has(x) && #[trigger] t.at(x).links(
                    y,
                ) implies #[trigger] s.contains(y) by {
                assert(u.at(x).links(y));
            }
        }
    }
    if t.reaches(a, b) {
        assert forall|s: Set<usize>| #[trigger] u.closed(s) && s.contains(a) implies s.contains(
            b,
        ) by {
            assert(t.closed(s));
        }
    }
    if u.reaches(a, b) {
        assert forall|s: Set<usize>| #[trigger] t.closed(s) && s.contains(a) implies s.contains(
            b,
        ) by {
            assert(u.closed(s));
        }
    }
}

/// A delivery leaves every widget alone that no step of layout leads to.
pub proof fn lemma_delivery_stays_within_reach(
    t: TreeView,
    w: usize,
    proposal: ProposalSize,
    x: usize,
)
    requires
        t.wf(),
        t.has(w),
        t.has(x),
        !t.reaches(w, x),
    ensures
        t.delivered(w, proposal).at(x) == t.at(x),
    decreases t.rank[w as int], 1nat,
{
    if t.marker(w).proposal_sink is Some {
        let packet = t.content_packet(w, proposal);
        let r = t.retaining(w, packet);
        lemma_retaining(t, w, packet);
        assert(x != w);
        assert forall|y: usize| #[trigger] t.has(y) implies repacked(t.at(y), r.at(y)) by {}
        lemma_repacking_keeps_reach(t, r, w, x);
        lemma_sink_stays_within_reach(r, w, packet, x);
    }
}

proof fn lemma_sink_stays_within_reach(t: TreeView, w: usize, packet: ProposalSize, x: usize)
    requires
        t.wf(),
        t.has(w),
        t.has(x),
        !t.reaches(w, x),
    ensures
        t.sunk(w, packet).at(x) == t.at(x),
    decreases t.rank[w as int], 0nat,
{
    assert(x != w);
    match t.marker(w).proposal_sink {
        None => {},
        Some(ProposalSink::Forward(content)) => {
            assert(t.at(w).links(content));
            if t.reaches(content, x) {
                lemma_step_reaches(t, w, content, x);
            }
            lemma_delivery_stays_within_reach(t, content, packet, x);
        },
        Some(ProposalSink::FirstChild) => {
            if let Some(child) = t.first_child(w) {
                assert(t.at(w).children@.contains(child));
                assert(t.at(w).links(child));
                if t.reaches(child, x) {
                    lemma_step_reaches(t, w, child, x);
                }
                lemma_delivery_stays_within_reach(t, child, packet, x);
            }
        },
        Some(ProposalSink::BoxSlot(content)) => {
            assert(t.at(w).links(content));
            if t.reaches(content, x) {
                lemma_step_reaches(t, w, content, x);
            }
            lemma_delivery_stays_within_reach(t, content, t.content_slot(w, content, packet), x);
        },
        Some(ProposalSink::Container) => {},
    }
}

/// What is left of `length` once `margin` is taken off.
pub open spec fn left_of(length: int, margin: int) -> int {
    if margin < length {
        length - margin
    } else {
        0
    }
}

/// A margin comes off a length exactly, where both are whole numbers of at most
/// 24 bits, and takes no more than there is.
pub proof fn lemma_margins_come_off(length: int, margin: int)
    requires
        -0x100_0000 < length < 0x100_0000,
        -0x100_0000 < margin < 0x100_0000,
        length - margin < 0x100_0000,
        -0x100_0000 < length - margin,
    ensures
        shrunk_extent(Some(Single::of_int(length)), Single::of_int(margin)) == Some(
            Single::of_int(left_of(length, margin)),
        ),
{
    let rest = length - margin;
    let unit = vstd::arithmetic::power2::pow2(149) as int;
    vstd::arithmetic::power2::lemma_pow2_pos(149);
    lemma_small_whole_is_exact(length);
    lemma_small_wholes_subtract(length, margin);
    lemma_small_whole_is_exact(rest);
    lemma_zero_is_zero();
    lemma_constants();
    if rest < 0 {
        assert(rest * unit < 0) by (nonlinear_arith)
            requires
                rest < 0,
                unit > 0,
        ;
    } else {
        assert(rest * unit >= 0) by (nonlinear_arith)
            requires
                rest >= 0,
                unit > 0,
        ;
    }
}

/// A widget's content is offered what the widget is offered less its margins:
/// those at the sides off the width, those above and below off the height.
pub proof fn lemma_content_is_offered_what_margins_leave(
    t: TreeView,
    w: usize,
    width: int,
    height: int,
)
    requires
        0 <= width < 0x80_0000,
        0 <= height < 0x80_0000,
        -0x80_0000 < t.at(w).margins.start + t.at(w).margins.end < 0x80_0000,
        -0x80_0000 < t.at(w).margins.top + t.at(w).margins.bottom < 0x80_0000,
    ensures
        t.content_packet(
            w,
            ProposalSize {
                width: Some(Single::of_int(width)),
                height: Some(Single::of_int(height)),
            },
        ) == (ProposalSize {
            width: Some(
                Single::of_int(left_of(width, t.at(w).margins.start + t.at(w).margins.end)),
            ),
            height: Some(
                Single::of_int(left_of(height, t.at(w).margins.top + t.at(w).margins.bottom)),
            ),
        }),
        t.content_packet(w, ProposalSize { width: None, height: Some(Single::of_int(height)) }).width
            is None,
        t.content_packet(w, ProposalSize { width: Some(Single::of_int(width)), height: None }).height
            is None,
{
    lemma_margins_come_off(width, t.at(w).margins.start + t.at(w).margins.end);
    lemma_margins_come_off(height, t.at(w).margins.top + t.at(w).margins.bottom);
}

/// Measuring and offering agree: content that is offered what the margins leave
/// of a length, and answers with just that, is surrounded to the length again.
pub proof fn lemma_margins_come_off_and_on(margins: Margins, width: int, height: int)
    requires
        modest(margins),
        -0x100_0000 < margins.start + margins.end <= width < 0x100_0000,
        -0x100_0000 < margins.top + margins.bottom <= height < 0x100_0000,
        width - (margins.start + margins.end) < 0x100_0000,
        height - (margins.top + margins.bottom) < 0x100_0000,
    ensures
        ({
            let inner = shrunk(
                ProposalSize {
                    width: Some(Single::of_int(width)),
                    height: Some(Single::of_int(height)),
                },
                margins.across(),
                margins.down(),
            );
            let size = crate::geometry::Size { width: inner.width->0, height: inner.height->0 };
            surrounded(margins, DimensionsView::plain(size)).size == (crate::geometry::Size {
                width: Single::of_int(width),
                height: Single::of_int(height),
            })
        }),
{
    let across = margins.start + margins.end;
    let down = margins.top + margins.bottom;
    lemma_small_wholes_add(margins.start as int, margins.end as int);
    lemma_small_wholes_add(margins.top as int, margins.bottom as int);
    lemma_margins_come_off(width, across);
    lemma_margins_come_off(height, down);
    lemma_small_wholes_add(width - across, across);
    lemma_small_wholes_add(height - down, down);
}

/// A scroll owner constrains its content to the viewport across the axes that it
/// does not scroll on, and leaves it free down those that it does. A list offers
/// its rows what a scroll owner on the same axis would.
pub proof fn lemma_scrolling_axes_are_free(
    horizontal: bool,
    vertical: bool,
    width: Single,
    height: Single,
)
    ensures
        scroll_packet(horizontal, vertical, width, height).width is None <==> horizontal,
        scroll_packet(horizontal, vertical, width, height).height is None <==> vertical,
        scroll_packet(horizontal, vertical, width, height).width matches Some(w) ==> w == width,
        scroll_packet(horizontal, vertical, width, height).height matches Some(h) ==> h == height,
        row_packet(Orientation::Vertical, width) == scroll_packet(false, true, width, height),
        row_packet(Orientation::Horizontal, height) == scroll_packet(true, false, width, height),
{
}

/// A widget without an annotation and without a parent is not scrolled.
pub proof fn lemma_unscrolled_root(t: TreeView, w: usize)
    requires
        t.wf(),
        t.has(w),
        t.at(w).parent is None,
        t.marker(w).scroll_axes is None,
    ensures
        t.scroll_axes_of(w) is None,
{
}

/// Where the axis that a widget reports comes from, by what is installed on it.
/// A live answer counts before the recorded one, which counts where the live one
/// is silent; a fixed one always counts; and a container that has children
/// answers as the engine does.
pub proof fn lemma_axis_sources(t: TreeView, answers: Seq<Option<StretchAxis>>, w: usize)
    requires
        t.wf(),
        t.has(w),
    ensures
        t.marker(w).axis_provider is None ==> t.axis_of(answers, w) == t.marker(w).reported_axis,
        t.marker(w).axis_provider matches Some(AxisProvider::Fixed(axis)) ==> t.axis_of(answers, w)
            == Some(axis),
        t.marker(w).axis_provider matches Some(AxisProvider::Content(content)) ==> t.axis_of(
            answers,
            content,
        ) is None ==> match t.marker(w).reported_axis {
            Some(recorded) => t.axis_of(answers, w) == Some(recorded),
            None => t.axis_of(answers, w) == Some(StretchAxis::Neither),
        },
        t.marker(w).axis_provider == Some(AxisProvider::Container) && t.at(w).children@.len() > 0
            ==> t.axis_of(answers, w) == answers[w as int],
        t.marker(w).axis_provider == Some(AxisProvider::Container) && t.at(w).children@.len() == 0
            && t.marker(w).reported_axis is Some ==> t.axis_of(answers, w) == t.marker(
            w,
        ).reported_axis,
{
    reveal_with_fuel(TreeView::axis_of, 2);
    if let Some(AxisProvider::Content(content)) = t.marker(w).axis_provider {
        assert(t.at(w).links(content));
    }
}

/// A recorded priority counts whatever is installed, and a widget with neither
/// reports none.
pub proof fn lemma_priority_sources(t: TreeView, w: usize)
    requires
        t.wf(),
        t.has(w),
    ensures
        t.marker(w).priority matches Some(priority) ==> t.priority_of(w) == Some(priority),
        t.marker(w).priority is None && t.marker(w).priority_provider is None ==> t.priority_of(w)
            is None,
{
}

/// The engine is asked about a container with what each child claims now, in the
/// children's order; the recorded claim counts for a child that reports none.
pub proof fn lemma_children_claim_for_themselves(
    t: TreeView,
    answers: Seq<Option<StretchAxis>>,
    w: usize,
    i: int,
)
    requires
        0 <= i < t.at(w).children@.len(),
    ensures
        t.child_axes(answers, w).len() == t.at(w).children@.len(),
        t.axis_of(answers, t.at(w).children@[i]) matches Some(axis) ==> t.child_axes(answers, w)[i]
            == axis,
        t.axis_of(answers, t.at(w).children@[i]) is None ==> t.child_axes(answers, w)[i] == t.at(
            w,
        ).container().axes@[i],
{
}

/// The engine is asked about a container only once nothing is left to be asked
/// about its children, and what is asked first about a widget that has an answer
/// is nothing.
pub proof fn lemma_children_are_asked_first(
    t: TreeView,
    answers: Seq<Option<StretchAxis>>,
    w: usize,
)
    requires
        t.wf(),
        t.has(w),
    ensures
        t.next_question(answers, w) matches Some(c) ==> t.has(c) && forall|i: int|
            #![trigger t.at(c).children@[i]]
            0 <= i < t.at(c).children@.len() ==> t.next_question(answers, t.at(c).children@[i])
                is None,
        t.next_question(answers, w) is None && t.marker(w).axis_provider == Some(
            AxisProvider::Container,
        ) ==> t.axis_of(answers, w) is Some,
    decreases t.rank[w as int], t.at(w).children@.len() + 1,
{
    match t.marker(w).axis_provider {
        Some(AxisProvider::Content(content)) => {
            assert(t.at(w).links(content));
            lemma_children_are_asked_first(t, answers, content);
        },
        Some(AxisProvider::FirstChild) => {
            if let Some(child) = t.first_child(w) {
                assert(t.at(w).children@.contains(child));
                assert(t.at(w).links(child));
                lemma_children_are_asked_first(t, answers, child);
            }
        },
        Some(AxisProvider::Container) => {
            lemma_later_children_are_asked_first(t, answers, w, 0);
        },
        _ => {},
    }
}

proof fn lemma_later_children_are_asked_first(
    t: TreeView,
    answers: Seq<Option<StretchAxis>>,
    w: usize,
    i: nat,
)
    requires
        t.wf(),
        t.has(w),
        i <= t.at(w).children@.len(),
    ensures
        t.next_child_question(answers, w, i) matches Some(c) ==> t.has(c) && forall|j: int|
            #![trigger t.at(c).children@[j]]
            0 <= j < t.at(c).children@.len() ==> t.next_question(answers, t.at(c).children@[j])
                is None,
        t.next_child_question(answers, w, i) is None ==> forall|j: int|
            #![trigger t.at(w).children@[j]]
            i <= j < t.at(w).children@.len() ==> t.next_question(answers, t.at(w).children@[j])
                is None,
    decreases t.rank[w as int], t.at(w).children@.len() - i,
{
    if i < t.at(w).children@.len() {
        let child = t.at(w).children@[i as int];
        assert(t.at(w).children@.contains(child));
        assert(t.at(w).links(child));
        lemma_children_are_asked_first(t, answers, child);
        lemma_later_children_are_asked_first(t, answers, w, i + 1);
    }
}

/// What lengths add up to.
pub open spec fn total(lengths: Seq<int>) -> int
    decreases lengths.len(),
{
    if lengths.len() == 0 {
        0
    } else {
        total(lengths.drop_last()) + lengths.last()
    }
}

/// The lengths of the visible ones of `siblings` other than `content`; a length
/// below zero counts as none.
pub open spec fn chrome_lengths(
    t: TreeView,
    siblings: Seq<usize>,
    orientation: Orientation,
    content: usize,
) -> Seq<int> {
    siblings.filter(|x: usize| t.at(x).visible && x != content).map_values(
        |x: usize|
            {
                let natural = match orientation {
                    Orientation::Horizontal => t.at(x).natural.width,
                    Orientation::Vertical => t.at(x).natural.height,
                };
                if natural < 0 {
                    0
                } else {
                    natural as int
                }
            },
    )
}

/// What the visible siblings of a content take up is what their natural lengths
/// along the box add up to, and they are counted one by one.
pub proof fn lemma_siblings_add_up(
    t: TreeView,
    siblings: Seq<usize>,
    orientation: Orientation,
    content: usize,
)
    requires
        total(chrome_lengths(t, siblings, orientation, content)) < 0x100_0000,
    ensures
        t.occupied(siblings, orientation, content) == Single::of_int(
            total(chrome_lengths(t, siblings, orientation, content)),
        ),
        t.visible_count(siblings) == siblings.filter(|x: usize| t.at(x).visible).len(),
        0 <= total(chrome_lengths(t, siblings, orientation, content)),
    decreases siblings.len(),
{
    reveal(Seq::filter);
    let lengths = chrome_lengths(t, siblings, orientation, content);
    if siblings.len() == 0 {
        assert(lengths.len() == 0);
        lemma_zero_is_zero();
    } else {
        let before = chrome_lengths(t, siblings.drop_last(), orientation, content);
        let last = siblings.last();
        if t.at(last).visible && last != content {
            assert(lengths.drop_last() =~= before);
            assert(lengths.last() >= 0);
            assert(total(lengths) == total(before) + lengths.last());
            lemma_siblings_add_up(t, siblings.drop_last(), orientation, content);
            lemma_small_wholes_add(total(before), lengths.last());
        } else {
            assert(lengths =~= before);
            lemma_siblings_add_up(t, siblings.drop_last(), orientation, content);
        }
    }
}

/// A box leaves its content what it is offered less the visible siblings and one
/// gap between each two visible children, along the box; across it, all of it.
/// Hidden siblings take neither room nor a gap.
pub proof fn lemma_slot_is_what_the_chrome_leaves(
    t: TreeView,
    row: usize,
    content: usize,
    packet: ProposalSize,
    offered: int,
)
    requires
        t.at(row).kind is Linear,
        0 <= t.at(row).kind->spacing < 0x80_0000,
        0 <= offered < 0x80_0000,
        ({
            let children = t.at(row).children@;
            let visible = children.filter(|x: usize| t.at(x).visible).len();
            let gaps = if visible == 0 {
                0
            } else {
                visible - 1
            };
            gaps < 0x80_0000 && total(
                chrome_lengths(t, children, t.at(row).kind->orientation, content),
            ) + t.at(row).kind->spacing * gaps < 0x80_0000
        }),
    ensures
        ({
            let children = t.at(row).children@;
            let visible = children.filter(|x: usize| t.at(x).visible).len();
            let gaps = if visible == 0 {
                0
            } else {
                visible - 1
            };
            let chrome = total(
                chrome_lengths(t, children, t.at(row).kind->orientation, content),
            ) + t.at(row).kind->spacing * gaps;
            let slot = t.content_slot(row, content, packet);
            match t.at(row).kind->orientation {
                Orientation::Horizontal => {
                    &&& slot.height == packet.height
                    &&& packet.width == Some(Single::of_int(offered)) ==> slot.width == Some(
                        Single::of_int(left_of(offered, chrome)),
                    )
                    &&& packet.width is None ==> slot.width is None
                },
                Orientation::Vertical => {
                    &&& slot.width == packet.width
                    &&& packet.height == Some(Single::of_int(offered)) ==> slot.height == Some(
                        Single::of_int(left_of(offered, chrome)),
                    )
                    &&& packet.height is None ==> slot.height is None
                },
            }
        }),
{
    let children = t.at(row).children@;
    let orientation = t.at(row).kind->orientation;
    let spacing = t.at(row).kind->spacing as int;
    let visible = children.filter(|x: usize| t.at(x).visible).len();
    let gaps = if visible == 0 {
        0
    } else {
        visible - 1
    };
    let siblings = total(chrome_lengths(t, children, orientation, content));
    assert(spacing * gaps >= 0) by (nonlinear_arith)
        requires
            spacing >= 0,
            gaps >= 0,
    ;
    lemma_siblings_add_up(t, children, orientation, content);
    if gaps == 0 {
        lemma_nothing_times_a_whole(spacing);
        assert(spacing * gaps == 0) by (nonlinear_arith)
            requires
                gaps == 0,
        ;
    } else {
        lemma_small_wholes_multiply(spacing, gaps);
    }
    lemma_small_wholes_add(siblings, spacing * gaps);
    lemma_margins_come_off(offered, siblings + spacing * gaps);
}

/// A delivery to a host that goes by its first child reaches that child, less
/// the host's own margins, and goes nowhere where there is none.
pub proof fn lemma_first_child_gets_the_packet(t: TreeView, w: usize, proposal: ProposalSize)
    requires
        t.wf(),
        t.has(w),
        t.marker(w).proposal_sink == Some(ProposalSink::FirstChild),
    ensures
        t.delivered(w, proposal).marker(w).retained_proposal == Some(t.content_packet(w, proposal)),
        t.at(w).children@.len() > 0 && t.marker(t.at(w).children@[0]).proposal_sink is Some
            ==> t.delivered(w, proposal).marker(t.at(w).children@[0]).retained_proposal == Some(
            t.content_packet(t.at(w).children@[0], t.content_packet(w, proposal)),
        ),
        t.at(w).children@.len() == 0 ==> forall|x: usize|
            t.has(x) && x != w ==> (#[trigger] t.delivered(w, proposal).at(x)) == t.at(x),
{
    let packet = t.content_packet(w, proposal);
    let r = t.retaining(w, packet);
    lemma_retaining(t, w, packet);
    lemma_reoffer_repeats_the_delivery(t, w, proposal);
    reveal_with_fuel(TreeView::delivered, 3);
    reveal_with_fuel(TreeView::sunk, 3);
    if t.at(w).children@.len() > 0 {
        let child = t.at(w).children@[0];
        assert(t.at(w).children@.contains(child));
        assert(t.at(w).links(child));
        if t.marker(child).proposal_sink is Some {
            lemma_reoffer_repeats_the_delivery(r, child, packet);
            assert(t.delivered(w, proposal) == r.delivered(child, packet));
        }
    }
}

/// What is recorded for a widget is what it reports: its scrolling axes, its
/// claim where nothing live is installed, and its priority whatever is. The last
/// record counts.
pub proof fn lemma_records_are_reported(
    t: TreeView,
    answers: Seq<Option<StretchAxis>>,
    w: usize,
    horizontal: bool,
    vertical: bool,
    axis: StretchAxis,
    priority: i32,
)
    requires
        t.has(w),
        t.scrolled(w, horizontal, vertical).wf(),
        t.claiming(w, axis).wf(),
        t.ranking(w, priority).wf(),
    ensures
        t.scrolled(w, horizontal, vertical).scroll_axes_of(w) == Some((horizontal, vertical)),
        t.marker(w).axis_provider is None ==> t.claiming(w, axis).axis_of(answers, w) == Some(axis),
        t.ranking(w, priority).priority_of(w) == Some(priority),
        t.scrolled(w, horizontal, vertical).at(w).children == t.at(w).children,
        t.claiming(w, axis).marker(w).priority == t.marker(w).priority,
        t.ranking(w, priority).marker(w).reported_axis == t.marker(w).reported_axis,
{
}

/// A widget made transparent to its content answers as the content does, in
/// every respect: its axis, its priority unless it has one of its own, its
/// measurement, and what it makes of a delivery.
pub proof fn lemma_transparent_host_is_its_content(
    t: TreeView,
    answers: Seq<Option<StretchAxis>>,
    w: usize,
    content: usize,
    proposal: ProposalSize,
)
    requires
        t.has(w),
        t.has(content),
        content != w,
        t.transparent(w, content).wf(),
    ensures
        ({
            let u = t.transparent(w, content);
            &&& u.axis_of(answers, content) matches Some(axis) ==> u.axis_of(answers, w) == Some(
                axis,
            )
            &&& t.marker(w).priority is None ==> u.priority_of(w) == Some(
                u.priority_of(content).unwrap_or(0),
            )
            &&& u.measured_child(w) == Some(content)
            &&& u.at(content) == t.at(content)
            &&& u.marker(content).proposal_sink is Some ==> u.delivered(w, proposal).marker(
                content,
            ).retained_proposal == Some(
                u.content_packet(content, u.content_packet(w, proposal)),
            )
        }),
{
    let u = t.transparent(w, content);
    lemma_transparent_host_reports_its_content(u, answers, w, content);
    let packet = u.content_packet(w, proposal);
    let r = u.retaining(w, packet);
    lemma_retaining(u, w, packet);
    assert(u.at(w).links(content));
    reveal_with_fuel(TreeView::delivered, 3);
    reveal_with_fuel(TreeView::sunk, 3);
    if u.marker(content).proposal_sink is Some {
        lemma_reoffer_repeats_the_delivery(r, content, packet);
        assert(u.delivered(w, proposal) == r.delivered(content, packet));
    }
}

/// A margin comes off any length: what is left is the difference, or nothing
/// where there is none left; and each axis of a widget loses its own margins.
pub proof fn lemma_any_margin_comes_off(
    t: TreeView,
    w: usize,
    proposal: ProposalSize,
    value: Single,
    margin: Single,
)
    requires
        value.finite(),
        margin.finite(),
    ensures
        ({
            let rest = Single::difference(value, margin);
            let left = shrunk_extent(Some(value), margin)->0;
            &&& shrunk_extent(Some(value), margin) is Some
            &&& left.value() >= 0
            &&& rest.value() >= 0 ==> left.value() == rest.value()
            &&& rest.value() <= 0 ==> left.value() == 0
        }),
        t.content_packet(w, proposal).width == shrunk_extent(
            proposal.width,
            Single::of_int(t.at(w).margins.start + t.at(w).margins.end),
        ),
        t.content_packet(w, proposal).height == shrunk_extent(
            proposal.height,
            Single::of_int(t.at(w).margins.top + t.at(w).margins.bottom),
        ),
{
    lemma_constants();
    assert(margin.negated().finite());
    lemma_finite_sums_are_numbers(value, margin.negated());
}

} // verus!
