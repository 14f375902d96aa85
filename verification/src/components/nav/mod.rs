//! Navigation chrome: bars, tabs and menus.

use crate::layout::widget::{lemma_replace, TreeView, Widget, WidgetKind, WidgetTree};
use vstd::prelude::*;

verus! {

impl TreeView {
    /// Whether `x` is a label in or under `w`, with no other label above it
    /// there.
    pub open spec fn label_under(self, w: usize, x: usize) -> bool
        decreases self.rank[w as int],
        when self.wf() && self.has(w)
    {
        if self.at(w).kind is Label {
            x == w
        } else {
            exists|child: usize|
                #[trigger] self.at(w).children@.contains(child) && self.rank[child as int]
                    < self.rank[w as int] && self.label_under(child, x)
        }
    }
}

/// A label on one line that is cut off with an ellipsis.
pub open spec fn single_lined(widget: Widget) -> Widget {
    Widget { kind: WidgetKind::Label { wrap: false, ellipsize: true }, ..widget }
}

impl TreeView {
    /// Whether `u` has the same families and labels in the same places.
    pub open spec fn same_shape(self, u: TreeView) -> bool {
        &&& u.widgets.len() == self.widgets.len()
        &&& u.rank == self.rank
        &&& forall|x: usize| #[trigger]
            self.has(x) ==> u.at(x).children == self.at(x).children && (u.at(x).kind is Label) == (
            self.at(x).kind is Label)
    }
}

/// Trees of the same shape have the same labels under a widget, and all of them
/// are labels.
proof fn lemma_same_labels(t: TreeView, u: TreeView, w: usize, x: usize)
    requires
        t.wf(),
        u.wf(),
        t.has(w),
        t.same_shape(u),
    ensures
        t.label_under(w, x) == u.label_under(w, x),
        t.label_under(w, x) ==> t.has(x) && t.at(x).kind is Label,
    decreases t.rank[w as int],
{
    reveal_with_fuel(TreeView::label_under, 2);
    if !(t.at(w).kind is Label) {
        assert forall|child: usize| #[trigger]
            t.at(w).children@.contains(child) implies t.label_under(child, x) == u.label_under(
            child,
            x,
        ) && (t.label_under(child, x) ==> t.has(x) && t.at(x).kind is Label) by {
            assert(t.at(w).links(child));
            lemma_same_labels(t, u, child, x);
        }
        assert(u.at(w).children == t.at(w).children);
    }
}

/// The labels under a widget are those under its children.
proof fn lemma_labels_of_children(t: TreeView, w: usize, x: usize)
    requires
        t.wf(),
        t.has(w),
        !(t.at(w).kind is Label),
    ensures
        t.label_under(w, x) == exists|j: int|
            0 <= j < t.at(w).children@.len() && t.label_under(
                #[trigger] t.at(w).children@[j],
                x,
            ),
        forall|j: int|
            0 <= j < t.at(w).children@.len() ==> t.has(#[trigger] t.at(w).children@[j]),
{
    reveal_with_fuel(TreeView::label_under, 2);
    let children = t.at(w).children@;
    assert forall|j: int| 0 <= j < children.len() implies t.has(#[trigger] children[j])
        && children.contains(children[j]) && t.rank[children[j] as int] < t.rank[w as int] by {
        assert(children.contains(children[j]));
        assert(t.at(w).links(children[j]));
    }
    if t.label_under(w, x) {
        let child = choose|child: usize|
            #[trigger] t.at(w).children@.contains(child) && t.rank[child as int] < t.rank[w as int]
                && t.label_under(child, x);
        let j = choose|j: int| 0 <= j < children.len() && children[j] == child;
        assert(t.label_under(children[j], x));
    }
    if exists|j: int| 0 <= j < children.len() && t.label_under(#[trigger] children[j], x) {
        let j = choose|j: int| 0 <= j < children.len() && t.label_under(#[trigger] children[j], x);
        assert(children.contains(children[j]));
        assert(t.label_under(children[j], x));
    }
}

/// Keeps every label of a piece of chrome on one line: it neither wraps nor
/// grows, but is cut off with an ellipsis. A label that wraps would answer the
/// toolkit's probes for a least width with a sliver.
pub fn enforce_single_line_labels(tree: &mut WidgetTree, widget: usize)
    requires
        old(tree)@.wf(),
        old(tree)@.has(widget),
    ensures
        final(tree)@.wf(),
        old(tree)@.same_shape(final(tree)@),
        forall|x: usize| #[trigger]
            old(tree)@.has(x) ==> final(tree)@.at(x) == if old(tree)@.label_under(widget, x) {
                single_lined(old(tree)@.at(x))
            } else {
                old(tree)@.at(x)
            },
    decreases old(tree)@.rank[widget as int],
{
    let ghost t = tree@;
    let label: bool = match &tree.widgets[widget].kind {
        WidgetKind::Label { .. } => true,
        _ => false,
    };
    if label {
        proof {
            assert(t.at(widget).sound());
            lemma_replace(t, widget, single_lined(t.at(widget)));
        }
        tree.widgets[widget].kind = WidgetKind::Label { wrap: false, ellipsize: true };
        assert(tree@.widgets =~= t.with(widget, single_lined(t.at(widget))).widgets);
        return;
    }
    let mut i: usize = 0;
    while i < tree.widgets[widget].children.len()
        invariant
            t == old(tree)@,
            t.wf(),
            t.has(widget),
            !(t.at(widget).kind is Label),
            tree@.wf(),
            t.same_shape(tree@),
            i <= t.at(widget).children@.len(),
            forall|x: usize| #[trigger]
                t.has(x) ==> tree@.at(x) == if exists|j: int|
                    0 <= j < i && t.label_under(#[trigger] t.at(widget).children@[j], x) {
                    single_lined(t.at(x))
                } else {
                    t.at(x)
                },
        decreases t.at(widget).children@.len() - i,
    {
        assert(t.has(widget));
        let child: usize = tree.widgets[widget].children[i];
        assert(t.at(widget).children@[i as int] == child);
        assert(t.at(widget).children@.contains(child));
        assert(t.at(widget).links(child));
        let ghost before = tree@;
        enforce_single_line_labels(tree, child);
        assert forall|x: usize| #[trigger] t.has(x) implies tree@.at(x) == if exists|j: int|
            0 <= j < i + 1 && t.label_under(#[trigger] t.at(widget).children@[j], x) {
            single_lined(t.at(x))
        } else {
            t.at(x)
        } by {
            assert(before.has(x));
            lemma_same_labels(t, before, child, x);
            if exists|j: int| 0 <= j < i && t.label_under(#[trigger] t.at(widget).children@[j], x) {
                let j = choose|j: int|
                    0 <= j < i && t.label_under(#[trigger] t.at(widget).children@[j], x);
                lemma_labels_of_children(t, widget, x);
                lemma_same_labels(t, t, t.at(widget).children@[j], x);
                assert(before.at(x) == single_lined(t.at(x)));
            }
            if exists|j: int| 0 <= j < i + 1 && t.label_under(#[trigger] t.at(widget).children@[j], x) {
                let j = choose|j: int| 0 <= j < i + 1 && t.label_under(#[trigger] t.at(widget).children@[j], x);
                assert(j < i || t.at(widget).children@[j] == child);
            }
        }
        assert forall|x: usize| #[trigger] t.has(x) implies tree@.at(x).children == t.at(x).children
            && (tree@.at(x).kind is Label) == (t.at(x).kind is Label) by {
            assert(before.has(x));
        }
        i = i + 1;
    }
    assert(t.has(widget));
    assert forall|x: usize| #[trigger] t.has(x) implies tree@.at(x) == if t.label_under(widget, x) {
        single_lined(t.at(x))
    } else {
        t.at(x)
    } by {
        lemma_labels_of_children(t, widget, x);
    }
}

/// Every label is found: a widget that is one is found itself, and what is found
/// under a child is found under its parent, unless the parent is a label. What
/// is found is a label.
pub proof fn lemma_every_label_is_found(t: TreeView, w: usize, child: usize, x: usize)
    requires
        t.wf(),
        t.has(w),
        t.at(w).children@.contains(child),
    ensures
        t.at(w).kind is Label ==> t.label_under(w, w),
        !(t.at(w).kind is Label) && t.label_under(child, x) ==> t.label_under(w, x),
        t.at(child).kind is Label && !(t.at(w).kind is Label) ==> t.label_under(w, child),
        t.label_under(w, x) ==> t.has(x) && t.at(x).kind is Label,
{
    assert(t.at(w).links(child));
    reveal_with_fuel(TreeView::label_under, 2);
    lemma_same_labels(t, t, w, x);
}

/// A label that is kept on one line does not wrap, and is cut off; nothing else
/// of it changes, and keeping it so again changes nothing.
pub proof fn lemma_single_line_is_cut_off(widget: Widget)
    ensures
        single_lined(widget).kind matches WidgetKind::Label { wrap, ellipsize } && !wrap
            && ellipsize,
        single_lined(widget) == (Widget { kind: single_lined(widget).kind, ..widget }),
        single_lined(single_lined(widget)) == single_lined(widget),
{
}

} // verus!
