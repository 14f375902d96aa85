//! Hands the layout engine's placements to the widgets.

use crate::geometry::{StretchAxis, SubviewPlacement};
use crate::layout::laws::{lemma_delivery_stays_within_reach, lemma_repacking_keeps_reach};
use crate::layout::proposal::{deliver_proposal, lemma_delivery_frame, repacked};
use crate::layout::widget::{TreeView, WidgetTree};
use crate::single::{
    lemma_constants, lemma_rounded_is_nearest, lemma_small_whole_is_exact,
    lemma_small_whole_stays_whole, saturate_i32, Single, ZERO,
};
use vstd::arithmetic::power2::{lemma_pow2_pos, pow2};
use vstd::prelude::*;

verus! {

/// A margin box to be allocated to a widget: whole pixels at an origin in
/// points.
#[derive(Clone, Copy, Debug, PartialEq, Eq, Structural)]
pub struct Allocation {
    pub widget: usize,
    pub width: i32,
    pub height: i32,
    pub x: Single,
    pub y: Single,
}

/// An extent in points as whole pixels, not below zero.
pub open spec fn pixels(extent: Single) -> i32 {
    saturate_i32(Single::larger(extent, Single { bits: ZERO }).rounded())
}

/// An extent in points as whole pixels, not below zero.
pub fn to_pixels(extent: Single) -> (r: i32)
    ensures
        r == pixels(extent),
{
    extent.max(Single { bits: ZERO }).round_i32()
}

/// The allocation that a placement gives `widget`.
pub open spec fn allocation(widget: usize, placement: SubviewPlacement) -> Allocation {
    Allocation {
        widget,
        width: pixels(placement.frame.size.width),
        height: pixels(placement.frame.size.height),
        x: placement.frame.origin.x,
        y: placement.frame.origin.y,
    }
}

/// The allocations that placements give children, one for each.
pub open spec fn allocations(
    placements: Seq<SubviewPlacement>,
    children: Seq<(usize, StretchAxis)>,
) -> Seq<Allocation> {
    Seq::new(children.len(), |i: int| allocation(children[i].0, placements[i]))
}

impl TreeView {
    /// The tree after each child, in order, was delivered the proposal that
    /// its placement selected.
    pub open spec fn placed(
        self,
        placements: Seq<SubviewPlacement>,
        children: Seq<(usize, StretchAxis)>,
    ) -> TreeView
        decreases children.len(),
    {
        if children.len() == 0 {
            self
        } else {
            self.placed(placements.drop_last(), children.drop_last()).delivered(
                children.last().0,
                placements.last().proposal,
            )
        }
    }
}

/// Delivers each child the proposal of its placement and gives back the
/// allocations to be made, one for each child and in the same order.
pub fn apply_placements(
    tree: &mut WidgetTree,
    placements: &Vec<SubviewPlacement>,
    children: &Vec<(usize, StretchAxis)>,
) -> (r: Vec<Allocation>)
    requires
        old(tree)@.wf(),
        placements@.len() == children@.len(),
        forall|i: int| 0 <= i < children@.len() ==> old(tree)@.has((#[trigger] children@[i]).0),
    ensures
        final(tree)@ == old(tree)@.placed(placements@, children@),
        final(tree)@.wf(),
        old(tree)@.only_repacked(final(tree)@),
        r@ == allocations(placements@, children@),
{
    let mut r: Vec<Allocation> = Vec::new();
    let mut i: usize = 0;
    let ghost t = tree@;
    while i < children.len()
        invariant
            t == old(tree)@,
            i <= children@.len(),
            placements@.len() == children@.len(),
            forall|i: int| 0 <= i < children@.len() ==> t.has((#[trigger] children@[i]).0),
            tree@ == t.placed(placements@.take(i as int), children@.take(i as int)),
            tree@.wf(),
            t.only_repacked(tree@),
            r@ == Seq::new(i as nat, |i: int| allocation(children@[i].0, placements@[i])),
        decreases children@.len() - i,
    {
        let (child, _axis) = children[i];
        let placement: SubviewPlacement = placements[i];
        let ghost before = tree@;
        proof {
            assert(t.has(children@[i as int].0));
            lemma_delivery_frame(tree@, child, placement.proposal);
            assert(children@.take(i + 1).drop_last() =~= children@.take(i as int));
            assert(placements@.take(i + 1).drop_last() =~= placements@.take(i as int));
            assert(children@.take(i + 1).last() == children@[i as int]);
            assert(placements@.take(i + 1).last() == placements@[i as int]);
        }
        deliver_proposal(tree, child, placement.proposal);
        r.push(
            Allocation {
                widget: child,
                width: to_pixels(placement.frame.size.width),
                height: to_pixels(placement.frame.size.height),
                x: placement.frame.origin.x,
                y: placement.frame.origin.y,
            },
        );
        assert forall|x: usize| #[trigger] t.has(x) implies crate::layout::proposal::repacked(
            t.at(x),
            tree@.at(x),
        ) by {
            assert(before.has(x));
        }
        i = i + 1;
    }
    assert(children@.take(i as int) =~= children@);
    assert(placements@.take(i as int) =~= placements@);
    assert(r@ =~= allocations(placements@, children@));
    r
}

/// The pixels of an extent are the whole number nearest to it, a half counting
/// as a whole; an extent that is no length takes none, and one beyond the range
/// as many as can be counted.
pub proof fn lemma_pixels_are_nearest(extent: Single)
    ensures
        pixels(extent) >= 0,
        extent.nan() || extent.value() <= 0 ==> pixels(extent) == 0,
        !extent.nan() && extent.value() >= 0 && pixels(extent) < i32::MAX ==> (2 * pixels(extent)
            - 1) * pow2(149) <= 2 * extent.value() < (2 * pixels(extent) + 1) * pow2(149),
        !extent.nan() && pixels(extent) == i32::MAX ==> (2 * i32::MAX - 1) * pow2(149) <= 2
            * extent.value(),
{
    let zero = Single { bits: ZERO };
    let d = pow2(149) as int;
    lemma_pow2_pos(149);
    lemma_constants();
    let length = Single::larger(extent, zero);
    lemma_rounded_is_nearest(length);
    let r = length.rounded();
    if length.value() == 0 {
        assert(!length.negative());
        assert(r == 0) by (nonlinear_arith)
            requires
                (2 * r - 1) * d <= 0 < (2 * r + 1) * d,
                d > 0,
        ;
    }
    if r >= i32::MAX {
        assert((2 * r - 1) * d >= (2 * i32::MAX - 1) * d) by (nonlinear_arith)
            requires
                r >= i32::MAX,
                d > 0,
        ;
    }
}

/// A whole number of pixels stays what it is.
pub proof fn lemma_whole_pixels_stay(n: int)
    requires
        0 <= n < 0x100_0000,
    ensures
        pixels(Single::of_int(n)) == n,
{
    lemma_small_whole_is_exact(n);
    lemma_small_whole_stays_whole(n);
    lemma_constants();
    lemma_pow2_pos(149);
    let d = pow2(149) as int;
    assert(n * d >= 0) by (nonlinear_arith)
        requires
            n >= 0,
            d > 0,
    ;
    let a = Single::of_int(n);
    if a.value() == 0 {
        assert(n == 0) by (nonlinear_arith)
            requires
                n * d == 0,
                d > 0,
        ;
    }
}

/// A child is allocated the pixels nearest to its frame, width for width and
/// height for height, at the frame's own origin.
pub proof fn lemma_allocation_is_the_frame(widget: usize, placement: SubviewPlacement)
    ensures
        allocation(widget, placement).widget == widget,
        allocation(widget, placement).x == placement.frame.origin.x,
        allocation(widget, placement).y == placement.frame.origin.y,
        allocation(widget, placement).width == pixels(placement.frame.size.width),
        allocation(widget, placement).height == pixels(placement.frame.size.height),
{
}

proof fn lemma_placed_frame(
    t: TreeView,
    placements: Seq<SubviewPlacement>,
    children: Seq<(usize, StretchAxis)>,
)
    requires
        t.wf(),
        placements.len() == children.len(),
        forall|i: int| 0 <= i < children.len() ==> t.has((#[trigger] children[i]).0),
    ensures
        t.placed(placements, children).wf(),
        t.only_repacked(t.placed(placements, children)),
    decreases children.len(),
{
    if children.len() > 0 {
        let before = t.placed(placements.drop_last(), children.drop_last());
        assert forall|i: int| 0 <= i < children.drop_last().len() implies t.has(
            (#[trigger] children.drop_last()[i]).0,
        ) by {
            assert(children.drop_last()[i] == children[i]);
        }
        lemma_placed_frame(t, placements.drop_last(), children.drop_last());
        assert(t.has(children[children.len() - 1].0));
        lemma_delivery_frame(before, children.last().0, placements.last().proposal);
        let after = t.placed(placements, children);
        assert forall|x: usize| #[trigger] t.has(x) implies repacked(t.at(x), after.at(x)) by {
            assert(before.has(x));
        }
    }
}

/// Each child works under the proposal that its own placement selected: whatever
/// its siblings are delivered, that is the packet it retains, inside its own
/// margins.
pub proof fn lemma_each_child_keeps_its_packet(
    t: TreeView,
    placements: Seq<SubviewPlacement>,
    children: Seq<(usize, StretchAxis)>,
    i: int,
)
    requires
        t.wf(),
        placements.len() == children.len(),
        forall|j: int| 0 <= j < children.len() ==> t.has((#[trigger] children[j]).0),
        0 <= i < children.len(),
        t.marker(children[i].0).proposal_sink is Some,
        forall|j: int|
            i < j < children.len() ==> !t.reaches((#[trigger] children[j]).0, children[i].0),
    ensures
        t.placed(placements, children).marker(children[i].0).retained_proposal == Some(
            t.content_packet(children[i].0, placements[i].proposal),
        ),
    decreases children.len(),
{
    let child = children[i].0;
    let last = children.last().0;
    let fewer = children.drop_last();
    let before = t.placed(placements.drop_last(), fewer);
    assert forall|j: int| 0 <= j < fewer.len() implies t.has((#[trigger] fewer[j]).0) by {
        assert(fewer[j] == children[j]);
    }
    lemma_placed_frame(t, placements.drop_last(), fewer);
    assert(t.has(children[children.len() - 1].0));
    assert(t.has(child));
    assert(repacked(t.at(child), before.at(child)));
    if i == children.len() - 1 {
        crate::layout::laws::lemma_reoffer_repeats_the_delivery(
            before,
            child,
            placements.last().proposal,
        );
        assert(before.content_packet(child, placements.last().proposal) == t.content_packet(
            child,
            placements.last().proposal,
        ));
    } else {
        assert forall|j: int| i < j < fewer.len() implies !t.reaches(
            (#[trigger] fewer[j]).0,
            fewer[i].0,
        ) by {
            assert(fewer[j] == children[j]);
        }
        lemma_each_child_keeps_its_packet(t, placements.drop_last(), fewer, i);
        assert(!t.reaches(children[children.len() - 1].0, child));
        lemma_repacking_keeps_reach(t, before, last, child);
        lemma_delivery_stays_within_reach(before, last, placements.last().proposal, child);
    }
}

/// Each child is allocated its own placement, in the children's order.
pub proof fn lemma_each_child_is_allocated_its_placement(
    placements: Seq<SubviewPlacement>,
    children: Seq<(usize, StretchAxis)>,
    i: int,
)
    requires
        0 <= i < children.len(),
    ensures
        allocations(placements, children).len() == children.len(),
        allocations(placements, children)[i].widget == children[i].0,
        allocations(placements, children)[i].x == placements[i].frame.origin.x,
        allocations(placements, children)[i].y == placements[i].frame.origin.y,
        allocations(placements, children)[i].width == pixels(placements[i].frame.size.width),
        allocations(placements, children)[i].height == pixels(placements[i].frame.size.height),
{
}

} // verus!
