//! A tree of widgets, as far as layout reads it.
//!
//! A [`WidgetTree`] holds, for each widget, the facts the toolkit reports
//! (margins, visibility, natural extents, children) beside the layout marker
//! that hosts install on it. Widgets are named by their index.

use crate::geometry::{Orientation, ProposalSize, StretchAxis};
use crate::single::Single;
use vstd::prelude::*;

verus! {

/// How a widget answers for its stretch axis when its content can change.
#[derive(Clone, Copy, Debug, PartialEq, Eq, Structural)]
pub enum AxisProvider {
    /// As the named content does, else as recorded when it was rendered.
    Content(usize),
    /// As the first child does.
    FirstChild,
    /// Always with this axis.
    Fixed(StretchAxis),
    /// As the layout engine derives it from the children's axes.
    Container,
}

/// How a widget answers for its layout priority when none was recorded.
#[derive(Clone, Copy, Debug, PartialEq, Eq, Structural)]
pub enum PriorityProvider {
    /// As the named content does.
    Content(usize),
    /// As the first child does.
    FirstChild,
}

/// How a widget answers a raw measurement probe.
#[derive(Clone, Copy, Debug, PartialEq, Eq, Structural)]
pub enum MeasureProvider {
    /// As the named content does.
    Content(usize),
    /// As the first child does, if there is one.
    FirstChild,
    /// As a gap with this minimum length.
    Spacer(Single),
}

/// What a delivered proposal does on a widget.
#[derive(Clone, Copy, Debug, PartialEq, Eq, Structural)]
pub enum ProposalSink {
    /// It is passed on to the named content.
    Forward(usize),
    /// It is passed on to the first child.
    FirstChild,
    /// It is passed on to the named content, less what the other visible
    /// children and the gaps between them take up.
    BoxSlot(usize),
    /// It becomes the container's selected proposal.
    Container,
}

/// What a widget reports to layout and does with a delivered proposal. Every
/// part starts empty and only what a host installs is ever used.
#[derive(Clone, Copy, Debug)]
pub struct WidgetLayout {
    /// Consulted before `reported_axis`.
    pub axis_provider: Option<AxisProvider>,
    /// The axis the view resolved to when it was rendered.
    pub reported_axis: Option<StretchAxis>,
    /// Consulted only when `priority` is empty.
    pub priority_provider: Option<PriorityProvider>,
    /// The recorded priority; the last write wins.
    pub priority: Option<i32>,
    pub measure_provider: Option<MeasureProvider>,
    pub proposal_sink: Option<ProposalSink>,
    /// The content-box packet last handed to the sink.
    pub retained_proposal: Option<ProposalSize>,
    /// The axes on which a scroll owner scrolls this content, horizontal first.
    pub scroll_axes: Option<(bool, bool)>,
}

impl WidgetLayout {
    /// A marker on which nothing is installed.
    pub open spec fn empty() -> WidgetLayout {
        WidgetLayout {
            axis_provider: None,
            reported_axis: None,
            priority_provider: None,
            priority: None,
            measure_provider: None,
            proposal_sink: None,
            retained_proposal: None,
            scroll_axes: None,
        }
    }
}

/// The pixels a widget keeps free on each side.
#[derive(Clone, Copy, Debug, PartialEq, Eq, Structural)]
pub struct Margins {
    pub start: i32,
    pub end: i32,
    pub top: i32,
    pub bottom: i32,
}

impl Margins {
    /// Whether the margins of each axis add up within the machine's range.
    pub open spec fn summable(self) -> bool {
        &&& i32::MIN <= self.start + self.end <= i32::MAX
        &&& i32::MIN <= self.top + self.bottom <= i32::MAX
    }
}

/// The natural extents a widget reports without a constraint.
#[derive(Clone, Copy, Debug, PartialEq, Eq, Structural)]
pub struct NaturalSize {
    pub width: i32,
    pub height: i32,
}

/// The widget-side state of a container whose children the engine lays out.
#[derive(Debug)]
pub struct ContainerState {
    /// The axis recorded for each child when it was rendered.
    pub axes: Vec<StretchAxis>,
    /// The proposal the parent layout selected, if one was delivered.
    pub selected_proposal: Option<ProposalSize>,
    /// Whether the layout hands a child's main-axis claim on as its own.
    pub relays_main_axis: bool,
    /// The main axis, where the layout is a stack.
    pub stack_axis: Option<Orientation>,
}

/// The kinds of widget that layout tells apart.
#[derive(Debug)]
pub enum WidgetKind {
    Plain,
    /// A text label.
    Label {
        wrap: bool,
        ellipsize: bool,
    },
    /// A box that lines its children up natively.
    Linear {
        orientation: Orientation,
        spacing: i32,
    },
    Container(ContainerState),
}

/// One widget.
#[derive(Debug)]
pub struct Widget {
    pub parent: Option<usize>,
    pub children: Vec<usize>,
    pub margins: Margins,
    pub visible: bool,
    pub natural: NaturalSize,
    pub kind: WidgetKind,
    pub layout: WidgetLayout,
    /// Whether a new allocation was asked for.
    pub allocate_queued: bool,
    /// Whether a new size negotiation was asked for.
    pub resize_queued: bool,
}

impl Widget {
    /// Whether layout steps from this widget to `b`: to a child, or to a
    /// content that the marker names.
    pub open spec fn links(self, b: usize) -> bool {
        ||| self.children@.contains(b)
        ||| self.layout.axis_provider == Some(AxisProvider::Content(b))
        ||| self.layout.priority_provider == Some(PriorityProvider::Content(b))
        ||| self.layout.measure_provider == Some(MeasureProvider::Content(b))
        ||| self.layout.proposal_sink == Some(ProposalSink::Forward(b))
        ||| self.layout.proposal_sink == Some(ProposalSink::BoxSlot(b))
    }

    pub open spec fn is_container(self) -> bool {
        self.kind is Container
    }

    /// The container state of a container.
    pub open spec fn container(self) -> ContainerState {
        self.kind->Container_0
    }

    /// What holds of a widget on its own.
    pub open spec fn sound(self) -> bool {
        &&& self.margins.summable()
        &&& self.children@.no_duplicates()
        &&& self.is_container() ==> self.container().axes@.len() == self.children@.len()
        &&& self.layout.axis_provider == Some(AxisProvider::Container) ==> self.is_container()
        &&& self.layout.proposal_sink == Some(ProposalSink::Container) ==> self.is_container()
        &&& self.layout.proposal_sink matches Some(
            ProposalSink::BoxSlot(_),
        ) ==> self.kind is Linear
    }
}

/// The widgets of a window.
pub struct WidgetTree {
    pub widgets: Vec<Widget>,
    pub rank: Ghost<Seq<nat>>,
    pub bound: Ghost<nat>,
}

/// What a [`WidgetTree`] stands for: its widgets, and for each a rank that
/// falls with every step layout takes, below `bound`.
#[verifier::ext_equal]
pub struct TreeView {
    pub widgets: Seq<Widget>,
    pub rank: Seq<nat>,
    pub bound: nat,
}

impl View for WidgetTree {
    type V = TreeView;

    open spec fn view(&self) -> TreeView {
        TreeView { widgets: self.widgets@, rank: self.rank@, bound: self.bound@ }
    }
}

impl TreeView {
    pub open spec fn has(self, w: usize) -> bool {
        w < self.widgets.len()
    }

    /// Widget `w`.
    pub open spec fn at(self, w: usize) -> Widget {
        self.widgets[w as int]
    }

    /// The marker of widget `w`.
    pub open spec fn marker(self, w: usize) -> WidgetLayout {
        self.at(w).layout
    }

    /// The first child of `w`.
    pub open spec fn first_child(self, w: usize) -> Option<usize> {
        if self.at(w).children@.len() == 0 {
            None
        } else {
            Some(self.at(w).children@[0])
        }
    }

    /// Every step layout can take leads to a widget of lower rank.
    pub open spec fn ranked(self) -> bool {
        &&& self.rank.len() == self.widgets.len()
        &&& forall|a: usize| #[trigger] self.has(a) ==> self.rank[a as int] < self.bound
        &&& forall|a: usize, b: usize|
            self.has(a) && #[trigger] self.at(a).links(b) ==> self.has(b) && self.rank[b as int]
                < self.rank[a as int]
    }

    /// Parents and children agree.
    pub open spec fn familiar(self) -> bool {
        &&& forall|a: usize| #[trigger] self.has(a) ==> self.has_home(a)
        &&& forall|p: usize, c: usize|
            self.has(p) && #[trigger] self.at(p).children@.contains(c) ==> self.has(c) && self.at(
                c,
            ).parent == Some(p)
    }

    /// Whether the parent of `a`, if any, holds `a` as a child.
    pub open spec fn has_home(self, a: usize) -> bool {
        self.at(a).parent matches Some(p) ==> self.has(p) && self.at(p).children@.contains(a)
    }

    pub open spec fn wf(self) -> bool {
        &&& self.ranked()
        &&& self.familiar()
        &&& forall|a: usize| #[trigger] self.has(a) ==> self.at(a).sound()
    }

    /// Whether a set of widgets holds every widget a step from it leads to.
    pub open spec fn closed(self, s: Set<usize>) -> bool {
        forall|a: usize, b: usize|
            s.contains(a) && self.has(a) && #[trigger] self.at(a).links(b) ==> #[trigger] s.contains(b)
    }

    /// Whether steps of layout can lead from `a` to `b`.
    pub open spec fn reaches(self, a: usize, b: usize) -> bool {
        forall|s: Set<usize>| #[trigger] self.closed(s) && s.contains(a) ==> s.contains(b)
    }

    /// Whether in this tree `child` stands last under `parent`, compared with
    /// `before`.
    pub open spec fn joined(self, before: TreeView, parent: usize, child: usize) -> bool {
        &&& self.widgets.len() == before.widgets.len()
        &&& self.at(parent).children@ == before.at(parent).children@.push(child)
        &&& self.at(child).parent == Some(parent)
    }

    /// The tree with widget `w` replaced.
    pub open spec fn with(self, w: usize, widget: Widget) -> TreeView {
        TreeView { widgets: self.widgets.update(w as int, widget), ..self }
    }

    /// The tree with the marker of `w` replaced.
    pub open spec fn with_marker(self, w: usize, layout: WidgetLayout) -> TreeView {
        self.with(w, Widget { layout, ..self.at(w) })
    }
}

/// No step leads to a widget that nothing names.
pub proof fn lemma_unlinked_is_unreached(t: TreeView, a: usize, b: usize)
    requires
        a != b,
        forall|x: usize| #[trigger] t.has(x) ==> !t.at(x).links(b),
    ensures
        !t.reaches(a, b),
{
    let s = Set::new(|x: usize| x != b);
    assert forall|x: usize, y: usize|
        s.contains(x) && t.has(x) && #[trigger] t.at(x).links(y) implies #[trigger] s.contains(
        y,
    ) by {}
    assert(t.closed(s));
}

/// Each step of layout brings every widget beyond it into reach.
pub proof fn lemma_step_reaches(t: TreeView, a: usize, b: usize, c: usize)
    requires
        t.has(a),
        t.at(a).links(b),
        t.reaches(b, c),
    ensures
        t.reaches(a, c),
{
    assert forall|s: Set<usize>| #[trigger] t.closed(s) && s.contains(a) implies s.contains(c) by {
        assert(s.contains(b));
    }
}

/// The ranks after `child` was put under `parent`: whatever leads to `parent`
/// is raised above `child`.
pub open spec fn raised(t: TreeView, parent: usize, child: usize) -> Seq<nat> {
    Seq::new(
        t.widgets.len(),
        |x: int|
            if t.reaches(x as usize, parent) {
                t.rank[x] + t.rank[child as int] + 1
            } else {
                t.rank[x]
            },
    )
}

/// Putting a parentless widget under another keeps the tree in order, if no
/// step leads from the child back to the parent.
pub proof fn lemma_attach(t: TreeView, u: TreeView, parent: usize, child: usize)
    requires
        t.ranked(),
        t.familiar(),
        t.has(parent),
        t.has(child),
        t.at(child).parent is None,
        !t.reaches(child, parent),
        u.widgets.len() == t.widgets.len(),
        u.at(parent).children@ == t.at(parent).children@.push(child),
        u.at(parent).layout == t.at(parent).layout,
        u.at(parent).parent == t.at(parent).parent,
        u.at(child).parent == Some(parent),
        u.at(child).children@ == t.at(child).children@,
        u.at(child).layout == t.at(child).layout,
        forall|x: usize|
            t.has(x) && x != parent && x != child ==> (#[trigger] u.at(x)) == t.at(x),
        u.rank == raised(t, parent, child),
        u.bound == t.bound + t.rank[child as int] + 1,
    ensures
        u.ranked(),
        u.familiar(),
        parent != child,
        !t.at(parent).children@.contains(child),
{
    assert(t.reaches(parent, parent));
    assert forall|c: usize| #[trigger] u.at(parent).children@.contains(c) == (t.at(
        parent,
    ).children@.contains(c) || c == child) by {
        let before = t.at(parent).children@;
        let after = u.at(parent).children@;
        if after.contains(c) {
            let i = choose|i: int| 0 <= i < after.len() && after[i] == c;
            if i < before.len() {
                assert(before[i] == c);
            }
        }
        if before.contains(c) {
            let i = choose|i: int| 0 <= i < before.len() && before[i] == c;
            assert(after[i] == c);
        }
        assert(after[before.len() as int] == child);
    }
    assert forall|a: usize| #[trigger] u.has(a) implies u.rank[a as int] < u.bound by {
        assert(t.has(a));
    }
    assert forall|a: usize, b: usize|
        u.has(a) && #[trigger] u.at(a).links(b) implies u.has(b) && u.rank[b as int]
        < u.rank[a as int] by {
        assert(t.at(a).links(b) || (a == parent && b == child));
        if t.at(a).links(b) {
            if t.reaches(b, parent) {
                lemma_step_reaches(t, a, b, parent);
            }
        }
    }
    assert forall|a: usize| #[trigger] u.has(a) implies u.has_home(a) by {
        assert(t.has(a));
    }
    assert forall|p: usize, c: usize|
        u.has(p) && #[trigger] u.at(p).children@.contains(c) implies u.has(c) && u.at(c).parent
        == Some(p) by {
        if c != child {
            assert(t.at(p).children@.contains(c));
        } else if p != parent {
            assert(t.at(p).children@.contains(c));
        }
    }
}

/// Replacing a widget keeps the tree in order, if its family stays the same
/// and every content it newly names is one of its children.
pub proof fn lemma_replace(t: TreeView, w: usize, widget: Widget)
    requires
        t.wf(),
        t.has(w),
        widget.parent == t.at(w).parent,
        widget.children@ == t.at(w).children@,
        widget.sound(),
        forall|b: usize| #[trigger] widget.links(b) ==> t.at(w).links(b),
    ensures
        t.with(w, widget).wf(),
{
    let u = t.with(w, widget);
    assert forall|a: usize| #[trigger] u.has(a) implies u.rank[a as int] < u.bound && u.has_home(a)
        && u.at(a).sound() by {
        assert(t.has(a));
        assert(u.at(a).parent == t.at(a).parent);
        if let Some(p) = u.at(a).parent {
            assert(u.at(p).children@ == t.at(p).children@);
        }
    }
    assert forall|a: usize, b: usize| u.has(a) && #[trigger] u.at(a).links(b) implies u.has(b)
        && u.rank[b as int] < u.rank[a as int] by {
        assert(t.at(a).links(b));
    }
    assert forall|p: usize, c: usize|
        u.has(p) && #[trigger] u.at(p).children@.contains(c) implies u.has(c) && u.at(c).parent
        == Some(p) by {
        assert(t.at(p).children@.contains(c));
        assert(u.at(c).parent == t.at(c).parent);
    }
}

/// Steps from `c` itself do not help to get to `c`: while no other widget gains
/// a link, what could not reach it still cannot.
pub proof fn lemma_still_unreached(t: TreeView, u: TreeView, a: usize, c: usize)
    requires
        !t.reaches(a, c),
        u.widgets.len() == t.widgets.len(),
        forall|x: usize, b: usize|
            x != c && t.has(x) && #[trigger] u.at(x).links(b) ==> t.at(x).links(b),
    ensures
        !u.reaches(a, c),
{
    let s = choose|s: Set<usize>| #[trigger] t.closed(s) && s.contains(a) && !s.contains(c);
    assert forall|x: usize, y: usize|
        s.contains(x) && u.has(x) && #[trigger] u.at(x).links(y) implies #[trigger] s.contains(
        y,
    ) by {
        assert(t.at(x).links(y));
    }
    assert(u.closed(s));
}

/// The number of widgets not seen yet.
spec fn unseen(seen: Seq<bool>) -> nat
    decreases seen.len(),
{
    if seen.len() == 0 {
        0
    } else {
        unseen(seen.drop_last()) + if seen.last() {
            0nat
        } else {
            1nat
        }
    }
}

proof fn lemma_unseen_falls(seen: Seq<bool>, i: int)
    requires
        0 <= i < seen.len(),
        !seen[i],
    ensures
        unseen(seen.update(i, true)) < unseen(seen),
    decreases seen.len(),
{
    let after = seen.update(i, true);
    if i == seen.len() - 1 {
        assert(after.drop_last() =~= seen.drop_last());
    } else {
        assert(after.drop_last() =~= seen.drop_last().update(i, true));
        lemma_unseen_falls(seen.drop_last(), i);
    }
}

impl Widget {
    /// The widgets that layout steps to from this one.
    fn targets(&self) -> (r: Vec<usize>)
        ensures
            forall|b: usize| #[trigger] r@.contains(b) == self.links(b),
    {
        let mut r: Vec<usize> = Vec::new();
        let mut i: usize = 0;
        while i < self.children.len()
            invariant
                i <= self.children.len(),
                r@ == self.children@.take(i as int),
            decreases self.children.len() - i,
        {
            r.push(self.children[i]);
            assert(self.children@.take(i + 1) =~= self.children@.take(i as int).push(
                self.children@[i as int],
            ));
            i = i + 1;
        }
        assert(r@ =~= self.children@);
        let ghost c0 = r@;
        if let Some(AxisProvider::Content(b)) = self.layout.axis_provider {
            r.push(b);
        }
        let ghost c1 = r@;
        if let Some(PriorityProvider::Content(b)) = self.layout.priority_provider {
            r.push(b);
        }
        let ghost c2 = r@;
        if let Some(MeasureProvider::Content(b)) = self.layout.measure_provider {
            r.push(b);
        }
        let ghost c3 = r@;
        match self.layout.proposal_sink {
            Some(ProposalSink::Forward(b)) => {
                r.push(b);
            },
            Some(ProposalSink::BoxSlot(b)) => {
                r.push(b);
            },
            _ => {},
        }
        proof {
            broadcast use vstd::seq_lib::group_seq_properties;

        }
        r
    }
}

impl WidgetTree {
    /// A tree without widgets.
    pub fn new() -> (r: WidgetTree)
        ensures
            r@.wf(),
            r@.widgets.len() == 0,
    {
        WidgetTree { widgets: Vec::new(), rank: Ghost(Seq::empty()), bound: Ghost(0) }
    }

    /// Adds a widget that has no parent, children, margins or marker yet, and
    /// gives it the next index.
    pub fn add_widget(&mut self, kind: WidgetKind) -> (r: usize)
        requires
            old(self)@.wf(),
            old(self)@.widgets.len() < usize::MAX,
            kind is Container ==> kind->Container_0.axes@.len() == 0,
        ensures
            final(self)@.wf(),
            r == old(self)@.widgets.len(),
            final(self)@.widgets.len() == old(self)@.widgets.len() + 1,
            forall|x: usize|
                old(self)@.has(x) ==> (#[trigger] final(self)@.at(x)) == old(self)@.at(x),
            final(self)@.at(r).kind == kind,
            final(self)@.at(r).parent is None,
            final(self)@.at(r).children@.len() == 0,
            final(self)@.at(r).margins == (Margins { start: 0, end: 0, top: 0, bottom: 0 }),
            final(self)@.at(r).visible,
            final(self)@.at(r).natural == (NaturalSize { width: 0, height: 0 }),
            final(self)@.at(r).layout == WidgetLayout::empty(),
            !final(self)@.at(r).allocate_queued,
            !final(self)@.at(r).resize_queued,
    {
        let r: usize = self.widgets.len();
        self.widgets.push(
            Widget {
                parent: None,
                children: Vec::new(),
                margins: Margins { start: 0, end: 0, top: 0, bottom: 0 },
                visible: true,
                natural: NaturalSize { width: 0, height: 0 },
                kind,
                layout: WidgetLayout {
                    axis_provider: None,
                    reported_axis: None,
                    priority_provider: None,
                    priority: None,
                    measure_provider: None,
                    proposal_sink: None,
                    retained_proposal: None,
                    scroll_axes: None,
                },
                allocate_queued: false,
                resize_queued: false,
            },
        );
        self.rank = Ghost(self.rank@.push(0));
        self.bound = Ghost(self.bound@ + 1);
        proof {
            let t = old(self)@;
            let u = self@;
            assert forall|a: usize| #[trigger] u.has(a) implies u.rank[a as int] < u.bound
                && u.has_home(a) && u.at(a).sound() by {
                if a != r {
                    assert(t.has(a));
                }
            }
            assert forall|a: usize, b: usize|
                u.has(a) && #[trigger] u.at(a).links(b) implies u.has(b) && u.rank[b as int]
                < u.rank[a as int] by {
                assert(t.at(a).links(b));
            }
            assert forall|p: usize, c: usize|
                u.has(p) && #[trigger] u.at(p).children@.contains(c) implies u.has(c) && u.at(
                c,
            ).parent == Some(p) by {
                assert(t.at(p).children@.contains(c));
            }
        }
        r
    }

    /// Puts `child` last among the children of `parent`.
    pub fn append(&mut self, parent: usize, child: usize)
        requires
            old(self)@.wf(),
            old(self)@.has(parent),
            old(self)@.has(child),
            old(self)@.at(child).parent is None,
            !old(self)@.at(parent).is_container(),
            !old(self)@.reaches(child, parent),
        ensures
            final(self)@.wf(),
            final(self)@.joined(old(self)@, parent, child),
            final(self)@.widgets.len() == old(self)@.widgets.len(),
            forall|x: usize|
                old(self)@.has(x) && x != parent && x != child ==> (#[trigger] final(self)@.at(x))
                    == old(self)@.at(x),
            final(self)@.at(parent).children@ == old(self)@.at(parent).children@.push(child),
            final(self)@.at(parent) == (Widget {
                children: final(self)@.at(parent).children,
                ..old(self)@.at(parent)
            }),
            final(self)@.at(child) == (Widget { parent: Some(parent), ..old(self)@.at(child) }),
    {
        self.widgets[child].parent = Some(parent);
        self.widgets[parent].children.push(child);
        self.rank = Ghost(raised(old(self)@, parent, child));
        self.bound = Ghost(old(self)@.bound + old(self)@.rank[child as int] + 1);
        proof {
            lemma_attach(old(self)@, self@, parent, child);
            assert forall|a: usize| #[trigger] self@.has(a) implies self@.at(a).sound() by {
                assert(old(self)@.has(a));
            }
        }
    }

    /// Whether steps of layout can lead from `a` to `b`.
    pub fn can_reach(&self, a: usize, b: usize) -> (r: bool)
        requires
            self@.wf(),
            self@.has(a),
            self@.has(b),
        ensures
            r == self@.reaches(a, b),
    {
        let mut seen: Vec<bool> = Vec::new();
        let mut i: usize = 0;
        while i < self.widgets.len()
            invariant
                i <= self.widgets.len(),
                seen@.len() == i,
                forall|x: int| 0 <= x < i ==> !seen@[x],
            decreases self.widgets.len() - i,
        {
            seen.push(false);
            i = i + 1;
        }
        let mut stack: Vec<usize> = Vec::new();
        seen.set(a, true);
        stack.push(a);
        let ghost t = self@;
        assert(stack@[0] == a);
        while stack.len() > 0
            invariant
                t == self@,
                t.wf(),
                t.has(a),
                seen@.len() == t.widgets.len(),
                seen@[a as int],
                forall|k: int| 0 <= k < stack.len() ==> t.has(#[trigger] stack@[k]),
                forall|s: Set<usize>, x: usize|
                    t.has(x) && seen@[x as int] && #[trigger] t.closed(s) && s.contains(a)
                        ==> #[trigger] s.contains(x),
                forall|x: usize, y: usize|
                    t.has(x) && seen@[x as int] && #[trigger] t.at(x).links(y) ==> stack@.contains(
                        x,
                    ) || seen@[y as int],
                forall|k: int| 0 <= k < stack.len() ==> seen@[#[trigger] stack@[k] as int],
            decreases unseen(seen@), stack.len(),
        {
            let ghost before = stack@;
            let w: usize = stack.pop().unwrap();
            assert(before.last() == w);
            assert forall|x: usize| before.contains(x) && x != w implies #[trigger] stack@.contains(
                x,
            ) by {
                let k = choose|k: int| 0 <= k < before.len() && before[k] == x;
                assert(stack@[k] == x);
            }
            let next: Vec<usize> = self.widgets[w].targets();
            let mut j: usize = 0;
            let ghost seen0 = seen@;
            let ghost stack0 = stack@;
            while j < next.len()
                invariant
                    j <= next.len(),
                    t == self@,
                    t.wf(),
                    t.has(a),
                    t.has(w),
                    seen@.len() == t.widgets.len(),
                    seen0.len() == t.widgets.len(),
                    seen@[a as int],
                    seen@[w as int],
                    forall|b: usize| #[trigger] next@.contains(b) == t.at(w).links(b),
                    forall|k: int| 0 <= k < stack.len() ==> t.has(#[trigger] stack@[k]),
                    forall|k: int| 0 <= k < stack.len() ==> seen@[#[trigger] stack@[k] as int],
                    forall|k: int|
                        0 <= k < j ==> t.has(#[trigger] next@[k]) && seen@[next@[k] as int],
                    forall|s: Set<usize>, x: usize|
                        t.has(x) && seen@[x as int] && #[trigger] t.closed(s) && s.contains(a)
                            ==> #[trigger] s.contains(x),
                    forall|x: usize, y: usize|
                        t.has(x) && seen@[x as int] && #[trigger] t.at(x).links(y) ==> x == w
                            || stack@.contains(x) || seen@[y as int],
                    unseen(seen@) < unseen(seen0) || (seen@ == seen0 && stack@ == stack0),
                decreases next.len() - j,
            {
                let b: usize = next[j];
                assert(next@.contains(b));
                assert(t.at(w).links(b));
                if !seen[b] {
                    let ghost seen1 = seen@;
                    let ghost stack1 = stack@;
                    proof {
                        lemma_unseen_falls(seen@, b as int);
                    }
                    seen.set(b, true);
                    stack.push(b);
                    assert(stack@.last() == b);
                    assert forall|x: usize, y: usize|
                        t.has(x) && seen@[x as int] && #[trigger] t.at(x).links(y) implies x == w
                        || stack@.contains(x) || seen@[y as int] by {
                        if x != b && x != w {
                            if stack1.contains(x) {
                                let k = choose|k: int| 0 <= k < stack1.len() && stack1[k] == x;
                                assert(stack@[k] == x);
                            }
                        }
                    }
                    assert forall|s: Set<usize>, x: usize|
                        t.has(x) && seen@[x as int] && #[trigger] t.closed(s) && s.contains(
                            a,
                        ) implies #[trigger] s.contains(x) by {
                        if x == b {
                            assert(s.contains(w));
                        }
                    }
                }
                j = j + 1;
            }
            assert forall|x: usize, y: usize|
                t.has(x) && seen@[x as int] && #[trigger] t.at(x).links(y) implies stack@.contains(
                x,
            ) || seen@[y as int] by {
                if x == w {
                    assert(next@.contains(y));
                    let k = choose|k: int| 0 <= k < next@.len() && next@[k] == y;
                    assert(seen@[next@[k] as int]);
                }
            }
        }
        proof {
            let s = Set::new(|x: usize| t.has(x) && seen@[x as int]);
            assert forall|x: usize, y: usize|
                s.contains(x) && t.has(x) && #[trigger] t.at(x).links(y) implies #[trigger] s.contains(
                y,
            ) by {
                assert(!stack@.contains(x));
            }
            assert(t.closed(s));
            if seen@[b as int] {
                assert(t.reaches(a, b)) by {
                    assert forall|q: Set<usize>| #[trigger] t.closed(q) && q.contains(
                        a,
                    ) implies q.contains(b) by {}
                }
            } else {
                assert(!s.contains(b));
            }
        }
        seen[b]
    }

    /// Records the margins that the toolkit reports for `w`.
    pub fn set_margins(&mut self, w: usize, margins: Margins)
        requires
            old(self)@.wf(),
            old(self)@.has(w),
            margins.summable(),
        ensures
            final(self)@ == old(self)@.with(w, Widget { margins, ..old(self)@.at(w) }),
            final(self)@.wf(),
    {
        proof {
            lemma_replace(self@, w, Widget { margins, ..self@.at(w) });
        }
        self.widgets[w].margins = margins;
    }

    /// Records whether `w` is shown.
    pub fn set_visible(&mut self, w: usize, visible: bool)
        requires
            old(self)@.wf(),
            old(self)@.has(w),
        ensures
            final(self)@ == old(self)@.with(w, Widget { visible, ..old(self)@.at(w) }),
            final(self)@.wf(),
    {
        proof {
            lemma_replace(self@, w, Widget { visible, ..self@.at(w) });
        }
        self.widgets[w].visible = visible;
    }

    /// Records the natural extents that the toolkit reports for `w`.
    pub fn set_natural_size(&mut self, w: usize, natural: NaturalSize)
        requires
            old(self)@.wf(),
            old(self)@.has(w),
        ensures
            final(self)@ == old(self)@.with(w, Widget { natural, ..old(self)@.at(w) }),
            final(self)@.wf(),
    {
        proof {
            lemma_replace(self@, w, Widget { natural, ..self@.at(w) });
        }
        self.widgets[w].natural = natural;
    }

    /// Puts `child`, with the axis recorded for it, last among the children of
    /// the container `parent`.
    pub fn adopt(&mut self, parent: usize, child: usize, axis: StretchAxis)
        requires
            old(self)@.wf(),
            old(self)@.has(parent),
            old(self)@.has(child),
            old(self)@.at(child).parent is None,
            old(self)@.at(parent).is_container(),
            !old(self)@.reaches(child, parent),
        ensures
            final(self)@.wf(),
            final(self)@.widgets.len() == old(self)@.widgets.len(),
            forall|x: usize|
                old(self)@.has(x) && x != parent && x != child ==> (#[trigger] final(self)@.at(x))
                    == old(self)@.at(x),
            final(self)@.at(parent).is_container(),
            final(self)@.at(parent).children@ == old(self)@.at(parent).children@.push(child),
            final(self)@.at(parent).container().axes@ == old(self)@.at(
                parent,
            ).container().axes@.push(axis),
            final(self)@.at(parent) == (Widget {
                children: final(self)@.at(parent).children,
                kind: WidgetKind::Container(
                    ContainerState {
                        axes: final(self)@.at(parent).container().axes,
                        ..old(self)@.at(parent).container()
                    },
                ),
                ..old(self)@.at(parent)
            }),
            final(self)@.at(child) == (Widget { parent: Some(parent), ..old(self)@.at(child) }),
    {
        proof {
            assert(self@.at(parent).sound());
        }
        self.widgets[child].parent = Some(parent);
        self.widgets[parent].children.push(child);
        if let WidgetKind::Container(state) = &mut self.widgets[parent].kind {
            state.axes.push(axis);
        }
        self.rank = Ghost(raised(old(self)@, parent, child));
        self.bound = Ghost(old(self)@.bound + old(self)@.rank[child as int] + 1);
        proof {
            lemma_attach(old(self)@, self@, parent, child);
            assert forall|a: usize| #[trigger] self@.has(a) implies self@.at(a).sound() by {
                assert(old(self)@.has(a));
            }
        }
    }

    /// Takes every child from `parent`.
    pub fn disown_all(&mut self, parent: usize)
        requires
            old(self)@.wf(),
            old(self)@.has(parent),
        ensures
            final(self)@.wf(),
            final(self)@.widgets.len() == old(self)@.widgets.len(),
            final(self)@.rank == old(self)@.rank,
            forall|x: usize|
                old(self)@.has(x) && x != parent && old(self)@.at(x).parent != Some(parent) ==> (
                #[trigger] final(self)@.at(x)) == old(self)@.at(x),
            forall|x: usize|
                old(self)@.has(x) && old(self)@.at(x).parent == Some(parent) ==> (
                #[trigger] final(self)@.at(x)) == (Widget { parent: None, ..old(self)@.at(x) }),
            final(self)@.at(parent).children@.len() == 0,
            old(self)@.at(parent).is_container() ==> final(self)@.at(parent).is_container()
                && final(self)@.at(parent).container().axes@.len() == 0 && final(self)@.at(parent)
                == (Widget {
                children: final(self)@.at(parent).children,
                kind: WidgetKind::Container(
                    ContainerState {
                        axes: final(self)@.at(parent).container().axes,
                        ..old(self)@.at(parent).container()
                    },
                ),
                ..old(self)@.at(parent)
            }),
            !old(self)@.at(parent).is_container() ==> final(self)@.at(parent) == (Widget {
                children: final(self)@.at(parent).children,
                ..old(self)@.at(parent)
            }),
    {
        let ghost t = self@;
        let ghost children = t.at(parent).children@;
        let mut i: usize = 0;
        proof {
            assert(t.at(parent).sound());
            assert(!children.contains(parent)) by {
                if children.contains(parent) {
                    assert(t.at(parent).links(parent));
                }
            }
        }
        while i < self.widgets[parent].children.len()
            invariant
                t == old(self)@,
                t.wf(),
                t.has(parent),
                children == t.at(parent).children@,
                children.no_duplicates(),
                !children.contains(parent),
                i <= children.len(),
                self@.widgets.len() == t.widgets.len(),
                self@.rank == t.rank,
                self@.bound == t.bound,
                self@.at(parent) == t.at(parent),
                forall|x: usize|
                    t.has(x) && !children.take(i as int).contains(x) ==> (#[trigger] self@.at(x))
                        == t.at(x),
                forall|x: usize|
                    t.has(x) && children.take(i as int).contains(x) ==> (#[trigger] self@.at(x))
                        == (Widget { parent: None, ..t.at(x) }),
            decreases children.len() - i,
        {
            let child: usize = self.widgets[parent].children[i];
            assert(children.contains(child));
            let ghost before = children.take(i as int);
            let ghost after = children.take(i + 1);
            assert(after =~= before.push(child));
            assert(!before.contains(child));
            let ghost previous = self@;
            self.widgets[child].parent = None;
            assert forall|x: usize| #[trigger] after.contains(x) == (before.contains(x) || x
                == child) by {
                if before.contains(x) {
                    let k = choose|k: int| 0 <= k < before.len() && before[k] == x;
                    assert(after[k] == x);
                }
                assert(after[i as int] == child);
                if after.contains(x) {
                    let k = choose|k: int| 0 <= k < after.len() && after[k] == x;
                    if k < i {
                        assert(before[k] == x);
                    }
                }
            }
            assert(child != parent);
            assert(self@.widgets =~= previous.widgets.update(
                child as int,
                Widget { parent: None, ..previous.at(child) },
            ));
            i = i + 1;
            assert(children.take(i as int) == after);
            assert forall|x: usize| t.has(x) && !after.contains(x) implies (#[trigger] self@.at(x))
                == t.at(x) by {
                assert(previous.at(x) == t.at(x));
            }
            assert forall|x: usize| t.has(x) && after.contains(x) implies (#[trigger] self@.at(x))
                == (Widget { parent: None, ..t.at(x) }) by {
                if x == child {
                    assert(previous.at(child) == t.at(child));
                } else {
                    assert(before.contains(x));
                    assert(previous.at(x) == (Widget { parent: None, ..t.at(x) }));
                }
            }
        }
        assert(children.take(i as int) =~= children);
        let ghost stripped = self@;
        self.widgets[parent].children = Vec::new();
        if let WidgetKind::Container(state) = &mut self.widgets[parent].kind {
            state.axes = Vec::new();
        }
        proof {
            let u = self@;
            assert forall|x: usize| t.has(x) && x != parent implies (#[trigger] u.at(x)).children
                == t.at(x).children && u.at(x).layout == t.at(x).layout && u.at(x)
                == stripped.at(x) by {
                assert(stripped.has(x));
                assert(u.at(x) == stripped.at(x));
                if children.contains(x) {
                    assert(stripped.at(x) == (Widget { parent: None, ..t.at(x) }));
                } else {
                    assert(stripped.at(x) == t.at(x));
                }
            }
            assert(u.at(parent).layout == t.at(parent).layout);
            assert forall|x: usize| t.has(x) && t.at(x).parent == Some(
                parent,
            ) implies children.contains(x) by {
                assert(t.has_home(x));
            }
            assert forall|a: usize| #[trigger] u.has(a) implies u.rank[a as int] < u.bound
                && u.has_home(a) && u.at(a).sound() by {
                assert(t.has(a));
                assert(t.has_home(a));
                assert(t.at(a).sound());
                if !children.contains(a) {
                    assert(stripped.at(a) == t.at(a));
                    if let Some(p) = u.at(a).parent {
                        assert(t.at(a).parent == Some(p));
                        assert(t.at(p).children@.contains(a));
                        assert(stripped.has(p));
                        assert(p != parent);
                        assert(u.at(p).children@ == t.at(p).children@);
                    }
                }
            }
            assert forall|a: usize, b: usize|
                u.has(a) && #[trigger] u.at(a).links(b) implies u.has(b) && u.rank[b as int]
                < u.rank[a as int] by {
                assert(t.at(a).links(b));
            }
            assert forall|p: usize, c: usize|
                u.has(p) && #[trigger] u.at(p).children@.contains(c) implies u.has(c) && u.at(
                c,
            ).parent == Some(p) by {
                assert(p != parent);
                assert(t.at(p).children@.contains(c));
                assert(t.at(c).parent == Some(p));
                assert(!children.contains(c));
                if c == parent {
                    assert(u.at(c).parent == t.at(c).parent);
                }
            }
        }
    }
}

/// A child that joins others stands behind all of them, and they keep their
/// places.
pub proof fn lemma_newcomers_stand_last(
    t: TreeView,
    u: TreeView,
    parent: usize,
    child: usize,
    i: int,
)
    requires
        u.joined(t, parent, child),
    ensures
        u.at(parent).children@.len() == t.at(parent).children@.len() + 1,
        u.at(parent).children@.last() == child,
        0 <= i < t.at(parent).children@.len() ==> u.at(parent).children@[i] == t.at(
            parent,
        ).children@[i],
        u.at(child).parent == Some(parent),
        t.at(parent).children@.len() > 0 ==> u.first_child(parent) == t.first_child(parent),
        t.at(parent).children@.len() == 0 ==> u.first_child(parent) == Some(child),
{
}

/// A widget that was replaced is the new one, and every other is as it was.
pub proof fn lemma_replacing_touches_one(t: TreeView, w: usize, widget: Widget, x: usize)
    requires
        t.has(w),
        t.has(x),
    ensures
        t.with(w, widget).at(w) == widget,
        x != w ==> t.with(w, widget).at(x) == t.at(x),
        t.with(w, widget).widgets.len() == t.widgets.len(),
{
}

} // verus!
