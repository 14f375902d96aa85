//! A scrolling list of rows that can be deleted.

use crate::components::layout::lazy_container::{agrees, row_matches};
use crate::geometry::{Orientation, ProposalSize};
use crate::layout::laws::{
    chrome_lengths, left_of, lemma_chrome_ignores_packets, lemma_margins_come_off,
    lemma_reoffer_repeats_the_delivery, lemma_slot_is_what_the_chrome_leaves, total,
};
use crate::layout::proposal::{
    deliver_proposal, forward_box_content_slot, lemma_retaining, lemma_sink_frame, reoffer_proposal,
    repacked, row_offer, row_packet, set_scroll_axes,
};
use crate::layout::widget::{
    lemma_replace, lemma_unlinked_is_unreached, Margins, NaturalSize, ProposalSink, TreeView,
    Widget, WidgetKind, WidgetLayout, WidgetTree,
};
use crate::single::Single;
use vstd::prelude::*;

verus! {

/// The pixels between the parts of a row.
pub const ROW_SPACING: i32 = 8;

/// A row: a host that the list allocates, and the box in it that lines the
/// row's parts up.
#[derive(Clone, Copy, Debug, PartialEq, Eq, Structural)]
pub struct WuiListRow {
    pub widget: usize,
    pub content_box: usize,
}

/// The pixels that a row keeps free around its parts.
pub open spec fn list_row_margins() -> Margins {
    Margins { start: 12, end: 12, top: 8, bottom: 8 }
}

impl WuiListRow {
    /// Whether this row stands in the tree: its box is its only child.
    pub open spec fn stands(self, t: TreeView) -> bool {
        &&& t.has(self.widget)
        &&& t.has(self.content_box)
        &&& t.at(self.widget).children@ == seq![self.content_box]
        &&& t.at(self.content_box).kind == (WidgetKind::Linear {
            orientation: Orientation::Horizontal,
            spacing: ROW_SPACING,
        })
    }

    /// The tree `t` once this is a row of the list with `content` in it.
    pub open spec fn bound(self, t: TreeView, content: usize) -> TreeView {
        t.with(
            self.widget,
            Widget {
                margins: list_row_margins(),
                layout: WidgetLayout {
                    scroll_axes: Some((false, true)),
                    ..t.marker(self.widget)
                },
                ..t.at(self.widget)
            },
        ).with_marker(
            self.content_box,
            WidgetLayout {
                proposal_sink: Some(ProposalSink::BoxSlot(content)),
                ..t.marker(self.content_box)
            },
        )
    }

    /// The tree `t` once this row was allocated `width` pixels.
    pub open spec fn allotted(self, t: TreeView, width: i32) -> TreeView {
        t.delivered(
            self.content_box,
            row_packet(Orientation::Vertical, Single::of_int(width as int)),
        )
    }

    /// The tree `t` once `button` was shown or hidden, and the content's slot
    /// negotiated anew from the packet in force.
    pub open spec fn told(self, t: TreeView, button: usize, visible: bool) -> TreeView {
        let shown = t.with(button, Widget { visible, ..t.at(button) });
        match shown.marker(self.content_box).retained_proposal {
            Some(packet) => shown.sunk(self.content_box, packet),
            None => shown,
        }
    }

    /// Adds an empty row.
    pub fn new(tree: &mut WidgetTree) -> (r: WuiListRow)
        requires
            old(tree)@.wf(),
            old(tree)@.widgets.len() < usize::MAX - 1,
        ensures
            final(tree)@.wf(),
            r.widget == old(tree)@.widgets.len(),
            r.content_box == old(tree)@.widgets.len() + 1,
            final(tree)@.widgets.len() == old(tree)@.widgets.len() + 2,
            forall|x: usize|
                old(tree)@.has(x) ==> (#[trigger] final(tree)@.at(x)) == old(tree)@.at(x),
            r.stands(final(tree)@),
            final(tree)@.at(r.widget).kind is Plain,
            final(tree)@.at(r.widget).parent is None,
            final(tree)@.marker(r.widget) == WidgetLayout::empty(),
            final(tree)@.at(r.content_box).children@.len() == 0,
            final(tree)@.marker(r.content_box) == WidgetLayout::empty(),
            final(tree)@.at(r.widget).margins == (Margins { start: 0, end: 0, top: 0, bottom: 0 }),
            final(tree)@.at(r.widget).visible,
            final(tree)@.at(r.widget).natural == (NaturalSize { width: 0, height: 0 }),
            !final(tree)@.at(r.widget).allocate_queued,
            !final(tree)@.at(r.widget).resize_queued,
            final(tree)@.at(r.content_box).margins == (Margins { start: 0, end: 0, top: 0, bottom: 0 }),
            final(tree)@.at(r.content_box).visible,
            final(tree)@.at(r.content_box).natural == (NaturalSize { width: 0, height: 0 }),
            !final(tree)@.at(r.content_box).allocate_queued,
            !final(tree)@.at(r.content_box).resize_queued,
    {
        let ghost t = tree@;
        let widget: usize = tree.add_widget(WidgetKind::Plain);
        let content_box: usize = tree.add_widget(
            WidgetKind::Linear { orientation: Orientation::Horizontal, spacing: ROW_SPACING },
        );
        let ghost u = tree@;
        proof {
            assert forall|x: usize| #[trigger] u.has(x) implies !u.at(x).links(widget) by {
                if t.has(x) {
                    assert(u.at(x) == t.at(x));
                    if t.at(x).links(widget) {
                        assert(t.has(widget));
                    }
                }
            }
            lemma_unlinked_is_unreached(u, content_box, widget);
        }
        tree.append(widget, content_box);
        proof {
            assert(tree@.at(widget).children@ =~= seq![content_box]);
            assert forall|x: usize| t.has(x) implies (#[trigger] tree@.at(x)) == t.at(x) by {
                assert(u.has(x));
                assert(u.at(x) == t.at(x));
            }
        }
        WuiListRow { widget, content_box }
    }

    /// Puts a part last into the row.
    pub fn append(&self, tree: &mut WidgetTree, child: usize)
        requires
            old(tree)@.wf(),
            self.stands(old(tree)@),
            old(tree)@.has(child),
            old(tree)@.at(child).parent is None,
            !old(tree)@.reaches(child, self.content_box),
        ensures
            final(tree)@.wf(),
            final(tree)@.widgets.len() == old(tree)@.widgets.len(),
            forall|x: usize|
                old(tree)@.has(x) && x != self.content_box && x != child ==> (
                #[trigger] final(tree)@.at(x)) == old(tree)@.at(x),
            final(tree)@.at(self.content_box).children@ == old(tree)@.at(
                self.content_box,
            ).children@.push(child),
            final(tree)@.at(self.content_box) == (Widget {
                children: final(tree)@.at(self.content_box).children,
                ..old(tree)@.at(self.content_box)
            }),
            final(tree)@.at(child) == (Widget {
                parent: Some(self.content_box),
                ..old(tree)@.at(child)
            }),
    {
        tree.append(self.content_box, child);
    }

    /// Makes the row one of the list with `content`, one of its parts: the
    /// row's margins are set, what the list offers reaches the content as the
    /// slot that the other parts leave it, and the list scrolls the row
    /// vertically.
    pub fn bind(&self, tree: &mut WidgetTree, content: usize)
        requires
            old(tree)@.wf(),
            self.stands(old(tree)@),
            old(tree)@.hosts(self.content_box, content),
        ensures
            final(tree)@ == self.bound(old(tree)@, content),
            final(tree)@.wf(),
    {
        let ghost t = tree@;
        proof {
            assert(t.at(self.widget).children@.contains(self.content_box)) by {
                assert(t.at(self.widget).children@[0] == self.content_box);
            }
            assert(t.at(self.widget).links(self.content_box));
            assert(self.widget != self.content_box);
        }
        tree.set_margins(self.widget, Margins { start: 12, end: 12, top: 8, bottom: 8 });
        assert(tree@.hosts(self.content_box, content)) by {
            assert(tree@.at(content).parent == t.at(content).parent);
        }
        forward_box_content_slot(tree, self.content_box, content);
        set_scroll_axes(tree, self.widget, false, true);
        assert(tree@.widgets =~= self.bound(t, content).widgets);
    }

    /// The list allocates the row `width` pixels: before the box in it is given
    /// that whole width, it is delivered the offer that the width stands for.
    pub fn size_allocate(&self, tree: &mut WidgetTree, width: i32)
        requires
            old(tree)@.wf(),
            self.stands(old(tree)@),
        ensures
            final(tree)@ == self.allotted(old(tree)@, width),
            final(tree)@.wf(),
    {
        deliver_proposal(
            tree,
            self.content_box,
            row_offer(Orientation::Vertical, Single::from_i32(width)),
        );
    }

    /// The button that deletes the row is shown or hidden: the content's slot
    /// is negotiated anew from the packet in force.
    pub fn show_delete_button(&self, tree: &mut WidgetTree, button: usize, visible: bool)
        requires
            old(tree)@.wf(),
            self.stands(old(tree)@),
            old(tree)@.has(button),
        ensures
            final(tree)@ == self.told(old(tree)@, button, visible),
            final(tree)@.wf(),
    {
        tree.set_visible(button, visible);
        reoffer_proposal(tree, self.content_box);
    }
}

/// Whether the button that deletes a row is shown: while the list is edited,
/// for a row that can be deleted.
pub fn shows_delete(editing: bool, deletable: bool) -> (r: bool)
    ensures
        r == (editing && deletable),
{
    editing && deletable
}

/// However often the list begins or ends to be edited, or a row becomes one that
/// can be deleted or no longer is, the row's button is shown as it was last
/// told; and nothing else is shown or hidden by that.
pub proof fn lemma_delete_button_follows(
    row: WuiListRow,
    t: TreeView,
    button: usize,
    visible: bool,
)
    requires
        t.wf(),
        row.stands(t),
        t.has(button),
    ensures
        row.told(t, button, visible).wf(),
        row.told(t, button, visible).at(button).visible == visible,
        forall|x: usize|
            t.has(x) && x != button ==> (#[trigger] row.told(t, button, visible).at(x)).visible
                == t.at(x).visible,
        row.told(t, button, visible).at(row.content_box).children@ == t.at(
            row.content_box,
        ).children@,
        row.stands(row.told(t, button, visible)),
{
    let shown = t.with(button, Widget { visible, ..t.at(button) });
    assert(t.at(button).sound());
    lemma_replace(t, button, shown.at(button));
    let after = row.told(t, button, visible);
    if let Some(packet) = shown.marker(row.content_box).retained_proposal {
        lemma_sink_frame(shown, row.content_box, packet);
        assert forall|x: usize| #[trigger] t.has(x) implies repacked(shown.at(x), after.at(x)) by {
            assert(shown.has(x));
        }
    }
    assert forall|x: usize| t.has(x) && x != button implies (#[trigger] after.at(x)).visible
        == t.at(x).visible by {
        assert(shown.at(x) == t.at(x));
    }
}

/// The button that deletes a row, if there is one, and whether it is shown.
pub open spec fn delete_button_of(deletes: bool, editing: bool, deletable: bool) -> Option<bool> {
    if deletes {
        Some(editing && deletable)
    } else {
        None
    }
}

/// A row has a button exactly where the list has something to do on a deletion,
/// and shows it exactly where the list is edited and the row can be deleted.
pub proof fn lemma_delete_button_needs_all(deletes: bool, editing: bool, deletable: bool)
    ensures
        delete_button_of(deletes, editing, deletable) is Some <==> deletes,
        delete_button_of(deletes, editing, deletable) == Some(true) <==> deletes && editing
            && deletable,
{
}

/// The button that deletes a row: there is one exactly where the list has
/// something to do on a deletion, and this tells whether it is shown.
pub fn delete_button(deletes: bool, editing: bool, deletable: bool) -> (r: Option<bool>)
    ensures
        r == delete_button_of(deletes, editing, deletable),
{
    if deletes {
        Some(shows_delete(editing, deletable))
    } else {
        None
    }
}

/// The index that a deletion is carried out on, if it still is.
pub open spec fn deletion(ids: Seq<i32>, position: u32, id: i32) -> Option<usize> {
    if agrees(ids, position, id) {
        Some(position as usize)
    } else {
        None
    }
}

/// A deletion takes the row that it was asked for and no other: the one at that
/// position, if it still has that identifier.
pub proof fn lemma_deletion_takes_the_row(ids: Seq<i32>, position: u32, id: i32)
    ensures
        deletion(ids, position, id) matches Some(i) ==> i == position && i < ids.len()
            && ids[i as int] == id,
        position < ids.len() && ids[position as int] == id ==> deletion(ids, position, id) is Some,
{
}

/// The index that a deletion is carried out on: the position of the row, as
/// long as the contents still have the row's identifier there.
pub fn deleted_row(ids: &Vec<i32>, position: u32, id: i32) -> (r: Option<usize>)
    ensures
        r == deletion(ids@, position, id),
{
    if row_matches(ids, position, id) {
        Some(position as usize)
    } else {
        None
    }
}

/// The row to scroll to, if there is one.
pub open spec fn target_row(index: usize, len: usize) -> Option<u32> {
    if index < len && index <= u32::MAX {
        Some(index as u32)
    } else {
        None
    }
}

/// A list scrolls to the row asked for, and nowhere where there is no such row
/// or the list cannot count to it.
pub proof fn lemma_scrolling_reaches_the_row(index: usize, len: usize)
    ensures
        target_row(index, len) matches Some(row) ==> row == index && row < len,
        index < len && index <= u32::MAX ==> target_row(index, len) is Some,
{
}

/// The row to scroll to, where there is such a row and the list can count to
/// it.
pub fn scroll_target(index: usize, len: usize) -> (r: Option<u32>)
    ensures
        r == target_row(index, len),
{
    if index < len && index <= 0xffff_ffff {
        Some(index as u32)
    } else {
        None
    }
}

/// The content of a row works under the slot that the row leaves it: what the
/// list offers less the other visible parts and the gaps between them, all
/// inside the margins of the box and of the content.
pub proof fn lemma_row_content_gets_its_slot(
    row: WuiListRow,
    t: TreeView,
    content: usize,
    width: i32,
)
    requires
        t.wf(),
        row.stands(t),
        t.marker(row.content_box).proposal_sink == Some(ProposalSink::BoxSlot(content)),
        t.marker(content).proposal_sink is Some,
    ensures
        ({
            let offer = row_packet(Orientation::Vertical, Single::of_int(width as int));
            let packet = t.content_packet(row.content_box, offer);
            let slot = t.content_slot(row.content_box, content, packet);
            t.delivered(row.content_box, offer).marker(content).retained_proposal == Some(
                t.content_packet(content, slot),
            )
        }),
{
    let content_box = row.content_box;
    let offer = row_packet(Orientation::Vertical, Single::of_int(width as int));
    let packet = t.content_packet(content_box, offer);
    let r = t.retaining(content_box, packet);
    assert(t.at(content_box).links(content));
    assert(content != content_box);
    lemma_retaining(t, content_box, packet);
    assert forall|x: usize| #[trigger] t.has(x) implies repacked(t.at(x), r.at(x)) by {}
    lemma_chrome_ignores_packets(t, r, content_box, content);
    let slot = t.content_slot(content_box, content, packet);
    assert(r.content_slot(content_box, content, packet) == slot);
    assert(r.at(content) == t.at(content));
    lemma_reoffer_repeats_the_delivery(r, content, slot);
    reveal_with_fuel(TreeView::delivered, 3);
    reveal_with_fuel(TreeView::sunk, 3);
}

/// A bound row scrolls with its list, up and down only; the box in it hands the
/// content its slot; and nothing of any other widget changes.
pub proof fn lemma_bound_row_is_one_of_the_list(
    row: WuiListRow,
    t: TreeView,
    content: usize,
    x: usize,
)
    requires
        t.wf(),
        row.stands(t),
        row.widget != row.content_box,
        row.bound(t, content).wf(),
        t.has(x),
    ensures
        ({
            let u = row.bound(t, content);
            &&& u.scroll_axes_of(row.widget) == Some((false, true))
            &&& t.marker(row.content_box).scroll_axes is None && t.at(row.content_box).parent
                == Some(row.widget) ==> u.scroll_axes_of(row.content_box) == Some((false, true))
            &&& u.marker(row.content_box).proposal_sink == Some(ProposalSink::BoxSlot(content))
            &&& u.at(row.widget).margins.start == u.at(row.widget).margins.end
            &&& u.at(row.widget).margins.top == u.at(row.widget).margins.bottom
            &&& u.at(row.content_box).margins == t.at(row.content_box).margins
            &&& x != row.widget && x != row.content_box ==> u.at(x) == t.at(x)
            &&& u.at(x).children == t.at(x).children
        }),
{
    let u = row.bound(t, content);
    assert(u.has(row.widget) && u.has(row.content_box));
    reveal_with_fuel(TreeView::scroll_axes_of, 2);
    if t.at(row.content_box).parent == Some(row.widget) {
        assert(u.at(row.content_box).parent == Some(row.widget));
        assert(u.has_home(row.content_box));
        assert(u.at(row.widget).links(row.content_box));
    }
}

/// What the content of a row works under, in whole pixels: the row's width less
/// the margins of the box, the other visible parts with one gap between each two
/// visible ones, and the content's own margins. Nothing is said of its height.
pub proof fn lemma_row_content_gets_what_is_left(
    row: WuiListRow,
    t: TreeView,
    content: usize,
    width: i32,
)
    requires
        t.wf(),
        row.stands(t),
        t.marker(row.content_box).proposal_sink == Some(ProposalSink::BoxSlot(content)),
        t.marker(content).proposal_sink is Some,
        0 <= width < 0x40_0000,
        -0x40_0000 < t.at(row.content_box).margins.start + t.at(row.content_box).margins.end
            < 0x40_0000,
        -0x40_0000 < t.at(content).margins.start + t.at(content).margins.end < 0x40_0000,
        ({
            let parts = t.at(row.content_box).children@;
            let visible = parts.filter(|x: usize| t.at(x).visible).len();
            visible < 0x8_0000 && total(chrome_lengths(t, parts, Orientation::Horizontal, content))
                + 8 * (if visible == 0 {
                0
            } else {
                visible - 1
            }) < 0x40_0000
        }),
    ensures
        ({
            let parts = t.at(row.content_box).children@;
            let visible = parts.filter(|x: usize| t.at(x).visible).len();
            let chrome = total(chrome_lengths(t, parts, Orientation::Horizontal, content)) + 8 * (
            if visible == 0 {
                0
            } else {
                visible - 1
            });
            let inner = left_of(
                width as int,
                t.at(row.content_box).margins.start + t.at(row.content_box).margins.end,
            );
            row.allotted(t, width).marker(content).retained_proposal == Some(
                ProposalSize {
                    width: Some(
                        Single::of_int(
                            left_of(
                                left_of(inner, chrome),
                                t.at(content).margins.start + t.at(content).margins.end,
                            ),
                        ),
                    ),
                    height: None,
                },
            )
        }),
{
    let content_box = row.content_box;
    let offer = row_packet(Orientation::Vertical, Single::of_int(width as int));
    let packet = t.content_packet(content_box, offer);
    let parts = t.at(content_box).children@;
    let around = t.at(content_box).margins.start + t.at(content_box).margins.end;
    let inside = t.at(content).margins.start + t.at(content).margins.end;
    let visible = parts.filter(|x: usize| t.at(x).visible).len();
    let gaps = if visible == 0 {
        0
    } else {
        visible - 1
    };
    let chrome = total(chrome_lengths(t, parts, Orientation::Horizontal, content)) + 8 * gaps;
    let inner = left_of(width as int, around);
    lemma_row_content_gets_its_slot(row, t, content, width);
    lemma_margins_come_off(width as int, around);
    lemma_slot_is_what_the_chrome_leaves(t, content_box, content, packet, inner);
    crate::layout::laws::lemma_siblings_add_up(t, parts, Orientation::Horizontal, content);
    lemma_margins_come_off(left_of(inner, chrome), inside);
}

/// When the button of a row is shown or hidden, the content's slot follows at
/// once: it is what the parts that are visible now leave of the packet in force.
pub proof fn lemma_slot_follows_the_button(
    row: WuiListRow,
    t: TreeView,
    button: usize,
    visible: bool,
    content: usize,
    packet: ProposalSize,
)
    requires
        t.wf(),
        row.stands(t),
        t.has(button),
        t.marker(row.content_box).proposal_sink == Some(ProposalSink::BoxSlot(content)),
        t.marker(content).proposal_sink is Some,
        t.marker(row.content_box).retained_proposal == Some(packet),
    ensures
        ({
            let shown = t.with(button, Widget { visible, ..t.at(button) });
            row.told(t, button, visible).marker(content).retained_proposal == Some(
                t.content_packet(content, shown.content_slot(row.content_box, content, packet)),
            )
        }),
{
    let shown = t.with(button, Widget { visible, ..t.at(button) });
    assert(t.at(button).sound());
    lemma_replace(t, button, shown.at(button));
    assert(shown.marker(row.content_box) == t.marker(row.content_box));
    assert(shown.at(row.content_box).links(content));
    let slot = shown.content_slot(row.content_box, content, packet);
    lemma_reoffer_repeats_the_delivery(shown, content, slot);
    assert(row.told(t, button, visible) == shown.delivered(content, slot));
    assert(shown.content_packet(content, slot) == t.content_packet(content, slot));
}

} // verus!
