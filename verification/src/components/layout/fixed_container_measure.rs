//! How a container answers the toolkit's size negotiation.
//!
//! The toolkit asks for a minimum and a natural extent. The natural one is
//! what the container's layout measures; the minimum is what the same layout
//! makes of the children's own minimums, and never more than the natural one.
//! Asking every child for both orientations, level by level, would take time
//! exponential in the depth of the tree, so one pass shares a [`MeasureMemo`]
//! and each container answers each question once.

use crate::components::layout::fixed_container_widget::WuiFixedContainer;
use crate::geometry::{Orientation, ProposalSize, Size, StretchAxis, ViewDimensions};
use crate::layout::memo::LayoutMeasureMemo;
use crate::layout::placer::{lemma_pixels_are_nearest, pixels, to_pixels};
use crate::layout::proposal::{collect_axes, reported_axis, EngineAxes};
use crate::layout::subview::{for_size, FixedSizeSubView, GtkSubView};
use crate::layout::widget::{TreeView, WidgetKind, WidgetTree};
use crate::single::{lemma_small_whole_is_exact, lemma_small_whole_stays_whole, Single};
use std::collections::HashMap;
use vstd::arithmetic::power2::pow2;
use vstd::prelude::*;

verus! {

/// What the toolkit asks a widget: its extent in one orientation, given its
/// extent in the other (`-1` for any).
#[derive(Clone, Copy, Debug, PartialEq, Eq, Structural)]
pub struct MeasureKey {
    pub widget: usize,
    pub orientation: Orientation,
    pub for_size: i32,
}

/// Work that is not the library's, needed before a measurement is known.
#[derive(Clone, Copy, Debug, PartialEq, Eq, Structural)]
pub enum MeasureQuestion {
    /// What a container's layout measures with its real children, under
    /// [`measure_proposal`].
    Natural { key: MeasureKey },
    /// The minimum that a native widget reports.
    Leaf { key: MeasureKey },
    /// What a container's layout measures with the children's minimums, under
    /// [`floor_proposal`].
    Floor { key: MeasureKey },
}

/// The extents of a container in whole pixels.
#[derive(Clone, Copy, Debug, PartialEq, Eq, Structural)]
pub struct ContainerExtents {
    pub min_width: i32,
    pub min_height: i32,
    pub natural_width: i32,
    pub natural_height: i32,
}

/// How a container answers a probe of the layout engine.
#[derive(Debug)]
pub enum LayoutMeasure {
    /// With what it answered to the same probe before.
    Recorded(ViewDimensions),
    /// With what its layout measures of these children.
    Engine(Vec<GtkSubView>),
}

/// Where the axis of a container comes from.
#[derive(Debug)]
pub enum LiveAxis {
    /// It is the one recorded when the container was rendered.
    Recorded(StretchAxis),
    /// Its layout derives it from these axes of the children.
    Engine(Vec<StretchAxis>),
}

/// The answers of one pass.
pub struct MeasureMemo {
    naturals: HashMap<u128, Size>,
    leaves: HashMap<u128, i32>,
    extents: HashMap<u128, ContainerExtents>,
}

/// What a [`MeasureMemo`] holds.
#[verifier::ext_equal]
pub struct MemoView {
    pub naturals: Map<MeasureKey, Size>,
    pub leaves: Map<MeasureKey, i32>,
    pub extents: Map<MeasureKey, ContainerExtents>,
}

impl MeasureKey {
    /// The number that this key is filed under.
    pub open spec fn code(self) -> int {
        self.widget * 0x2_0000_0000 + (if self.orientation == Orientation::Vertical {
            0x1_0000_0000int
        } else {
            0
        }) + (self.for_size - i32::MIN)
    }

    fn pack(self) -> (r: u128)
        ensures
            r == self.code(),
    {
        let side: u128 = match self.orientation {
            Orientation::Vertical => 0x1_0000_0000,
            Orientation::Horizontal => 0,
        };
        let offset: u128 = (self.for_size as i64 + 0x8000_0000i64) as u128;
        assert(self.widget * 0x2_0000_0000 <= usize::MAX * 0x2_0000_0000);
        (self.widget as u128) * 0x2_0000_0000 + side + offset
    }
}

/// Different keys are filed under different numbers.
pub proof fn lemma_code_is_unique(a: MeasureKey, b: MeasureKey)
    requires
        a.code() == b.code(),
    ensures
        a == b,
{
}

proof fn lemma_code_fits(k: MeasureKey)
    ensures
        0 <= k.code() <= u128::MAX,
{
    assert(0 <= k.widget * 0x2_0000_0000 <= 0x1_0000_0000_0000_0000 * 0x2_0000_0000);
}

/// What a table holds, by key.
pub open spec fn filed<V>(table: Map<u128, V>) -> Map<MeasureKey, V> {
    Map::new(
        |k: MeasureKey| table.dom().contains(k.code() as u128),
        |k: MeasureKey| table[k.code() as u128],
    )
}

proof fn lemma_filed_insert<V>(table: Map<u128, V>, k: MeasureKey, v: V)
    ensures
        filed(table.insert(k.code() as u128, v)) =~= filed(table).insert(k, v),
{
    lemma_code_fits(k);
    assert forall|x: MeasureKey| x != k implies #[trigger] (x.code() as u128) != k.code() as u128 by {
        lemma_code_fits(x);
        if x.code() == k.code() {
            lemma_code_is_unique(x, k);
        }
    }
}

impl View for MeasureMemo {
    type V = MemoView;

    closed spec fn view(&self) -> MemoView {
        MemoView {
            naturals: filed(self.naturals@),
            leaves: filed(self.leaves@),
            extents: filed(self.extents@),
        }
    }
}

/// The constraint that a child sees in direction `along` when its container
/// is asked for `key`: the container's own one on the orientation asked for,
/// none on the other.
pub open spec fn child_constraint(key: MeasureKey, along: Orientation) -> i32 {
    if along == key.orientation {
        key.for_size
    } else {
        -1i32
    }
}

/// The key under which `child` is asked on behalf of a container asked for
/// `key`.
pub open spec fn child_key(key: MeasureKey, child: usize, along: Orientation) -> MeasureKey {
    MeasureKey { widget: child, orientation: along, for_size: child_constraint(key, along) }
}

/// The proposal that a toolkit question stands for.
pub open spec fn asked_proposal(orientation: Orientation, for_size: i32) -> ProposalSize {
    let unspecified = ProposalSize { width: None, height: None };
    if for_size >= 0 {
        match orientation {
            Orientation::Horizontal => ProposalSize {
                height: Some(Single::of_int(for_size as int)),
                ..unspecified
            },
            Orientation::Vertical => ProposalSize {
                width: Some(Single::of_int(for_size as int)),
                ..unspecified
            },
        }
    } else {
        unspecified
    }
}

/// The proposal that a toolkit question stands for.
pub fn measure_proposal(orientation: Orientation, for_size: i32) -> (r: ProposalSize)
    ensures
        r == asked_proposal(orientation, for_size),
{
    if for_size >= 0 {
        let extent: Option<Single> = Some(Single::from_i32(for_size));
        match orientation {
            Orientation::Horizontal => ProposalSize::new(None, extent),
            Orientation::Vertical => ProposalSize::new(extent, None),
        }
    } else {
        ProposalSize::new(None, None)
    }
}

/// The proposal under which a floor is measured: the minimums are put to the
/// layout without any constraint, whatever the toolkit asked.
pub fn floor_proposal() -> (r: ProposalSize)
    ensures
        r == (ProposalSize { width: None, height: None }),
{
    ProposalSize::new(None, None)
}

/// The extents of a container whose layout measured `natural` with its
/// children and `floor` with their minimums.
pub open spec fn extents_of(natural: Size, floor: Size) -> ContainerExtents {
    let width = pixels(natural.width);
    let height = pixels(natural.height);
    ContainerExtents {
        min_width: if pixels(floor.width) < width {
            pixels(floor.width)
        } else {
            width
        },
        min_height: if pixels(floor.height) < height {
            pixels(floor.height)
        } else {
            height
        },
        natural_width: width,
        natural_height: height,
    }
}

/// No container reports a minimum above its natural extent, whatever its
/// layout makes of the children.
pub proof fn lemma_minimum_within_natural(natural: Size, floor: Size)
    ensures
        extents_of(natural, floor).min_width <= extents_of(natural, floor).natural_width,
        extents_of(natural, floor).min_height <= extents_of(natural, floor).natural_height,
{
}

impl TreeView {
    /// The minimum of `child` in direction `along`, once it is known.
    pub open spec fn known_minimum(self, memo: MemoView, key: MeasureKey) -> Option<i32> {
        if self.at(key.widget).is_container() {
            if memo.extents.contains_key(key) {
                Some(
                    match key.orientation {
                        Orientation::Horizontal => memo.extents[key].min_width,
                        Orientation::Vertical => memo.extents[key].min_height,
                    },
                )
            } else {
                None
            }
        } else if memo.leaves.contains_key(key) {
            Some(memo.leaves[key])
        } else {
            None
        }
    }

    /// What has to be asked next before container `key.widget` can answer
    /// `key`: first its natural size, then what its children still owe, at
    /// last its floor.
    pub open spec fn measure_step(self, memo: MemoView, key: MeasureKey) -> Option<
        MeasureQuestion,
    >
        decreases self.rank[key.widget as int], self.at(key.widget).children@.len() + 1,
        when self.wf() && self.has(key.widget)
    {
        if memo.extents.contains_key(key) {
            None
        } else if !memo.naturals.contains_key(key) {
            Some(MeasureQuestion::Natural { key })
        } else {
            match self.children_step(memo, key, 0) {
                Some(question) => Some(question),
                None => Some(MeasureQuestion::Floor { key }),
            }
        }
    }

    /// What has to be asked next on behalf of the children from the `i`th on.
    pub open spec fn children_step(self, memo: MemoView, key: MeasureKey, i: nat) -> Option<
        MeasureQuestion,
    >
        decreases self.rank[key.widget as int], self.at(key.widget).children@.len() - i,
        when self.wf() && self.has(key.widget) && i <= self.at(key.widget).children@.len()
    {
        if i == self.at(key.widget).children@.len() {
            None
        } else {
            let child = self.at(key.widget).children@[i as int];
            proof {
                assert(self.at(key.widget).children@.contains(child));
                assert(self.at(key.widget).links(child));
            }
            let across = child_key(key, child, Orientation::Horizontal);
            let down = child_key(key, child, Orientation::Vertical);
            if self.known_minimum(memo, across) is None {
                if self.at(child).is_container() {
                    self.measure_step(memo, across)
                } else {
                    Some(MeasureQuestion::Leaf { key: across })
                }
            } else if self.known_minimum(memo, down) is None {
                if self.at(child).is_container() {
                    self.measure_step(memo, down)
                } else {
                    Some(MeasureQuestion::Leaf { key: down })
                }
            } else {
                self.children_step(memo, key, i + 1)
            }
        }
    }

    /// The children of container `key.widget` as boxes of their minimums.
    pub open spec fn minimum_boxes(self, memo: MemoView, key: MeasureKey) -> Seq<
        FixedSizeSubView,
    > {
        Seq::new(
            self.at(key.widget).children@.len(),
            |i: int|
                {
                    let child = self.at(key.widget).children@[i];
                    let width = self.known_minimum(
                        memo,
                        child_key(key, child, Orientation::Horizontal),
                    ).unwrap_or(0);
                    let height = self.known_minimum(
                        memo,
                        child_key(key, child, Orientation::Vertical),
                    ).unwrap_or(0);
                    FixedSizeSubView {
                        size: Size {
                            width: Single::of_int(if width < 0 {
                                0
                            } else {
                                width as int
                            }),
                            height: Single::of_int(if height < 0 {
                                0
                            } else {
                                height as int
                            }),
                        },
                        stretch_axis: self.at(key.widget).container().axes@[i],
                    }
                },
        )
    }

    /// The children of container `w` with the axes recorded for them.
    pub open spec fn subviews(self, w: usize) -> Seq<GtkSubView> {
        Seq::new(
            self.at(w).children@.len(),
            |i: int|
                GtkSubView {
                    widget: self.at(w).children@[i],
                    stretch_axis: self.at(w).container().axes@[i],
                },
        )
    }
}

/// Whether `a` is asked as `key` is, or freely in one orientation.
pub open spec fn variant_of(a: MeasureKey, key: MeasureKey) -> bool {
    (a.orientation == key.orientation && a.for_size == key.for_size) || a.for_size == -1
}

impl MemoView {
    /// Whether `question` was answered.
    pub open spec fn settles(self, question: MeasureQuestion) -> bool {
        match question {
            MeasureQuestion::Natural { key } => self.naturals.contains_key(key),
            MeasureQuestion::Leaf { key } => self.leaves.contains_key(key),
            MeasureQuestion::Floor { key } => self.extents.contains_key(key),
        }
    }
}

impl MeasureQuestion {
    pub open spec fn about(self) -> MeasureKey {
        match self {
            MeasureQuestion::Natural { key } => key,
            MeasureQuestion::Leaf { key } => key,
            MeasureQuestion::Floor { key } => key,
        }
    }
}

impl TreeView {
    /// Whether the minimums of all children are known.
    pub open spec fn floors_known(self, memo: MemoView, key: MeasureKey) -> bool {
        forall|i: int|
            #![trigger self.at(key.widget).children@[i]]
            0 <= i < self.at(key.widget).children@.len() ==> self.known_minimum(
                memo,
                child_key(key, self.at(key.widget).children@[i], Orientation::Horizontal),
            ) is Some && self.known_minimum(
                memo,
                child_key(key, self.at(key.widget).children@[i], Orientation::Vertical),
            ) is Some
    }

    /// Whether `question` is one that a pass for `key` may ask: still open, put
    /// to the right kind of widget, in one of the few variants of `key`, and a
    /// floor only once everything it rests on is known.
    pub open spec fn well_asked(
        self,
        memo: MemoView,
        key: MeasureKey,
        question: MeasureQuestion,
    ) -> bool {
        let about = question.about();
        &&& !memo.settles(question)
        &&& variant_of(about, key)
        &&& self.has(about.widget)
        &&& self.at(about.widget).is_container() == !(question is Leaf)
        &&& question is Floor ==> memo.naturals.contains_key(about) && self.floors_known(
            memo,
            about,
        )
    }
}

/// A pass never repeats a question, and it asks each widget in at most three
/// variants: as the pass itself was asked, and freely in each orientation.
pub proof fn lemma_questions_are_new(t: TreeView, memo: MemoView, key: MeasureKey)
    requires
        t.wf(),
        t.has(key.widget),
        t.at(key.widget).is_container(),
    ensures
        t.measure_step(memo, key) matches Some(question) ==> t.well_asked(memo, key, question),
        t.measure_step(memo, key) is None <==> memo.extents.contains_key(key),
    decreases t.rank[key.widget as int], t.at(key.widget).children@.len() + 1,
{
    if !memo.extents.contains_key(key) && memo.naturals.contains_key(key) {
        lemma_child_questions_are_new(t, memo, key, 0);
    }
}

proof fn lemma_child_questions_are_new(t: TreeView, memo: MemoView, key: MeasureKey, i: nat)
    requires
        t.wf(),
        t.has(key.widget),
        t.at(key.widget).is_container(),
        i <= t.at(key.widget).children@.len(),
    ensures
        t.children_step(memo, key, i) matches Some(question) ==> t.well_asked(memo, key, question),
        t.children_step(memo, key, i) is None ==> forall|j: int|
            #![trigger t.at(key.widget).children@[j]]
            i <= j < t.at(key.widget).children@.len() ==> t.known_minimum(
                memo,
                child_key(key, t.at(key.widget).children@[j], Orientation::Horizontal),
            ) is Some && t.known_minimum(
                memo,
                child_key(key, t.at(key.widget).children@[j], Orientation::Vertical),
            ) is Some,
    decreases t.rank[key.widget as int], t.at(key.widget).children@.len() - i,
{
    if i < t.at(key.widget).children@.len() {
        let child = t.at(key.widget).children@[i as int];
        assert(t.at(key.widget).children@.contains(child));
        assert(t.at(key.widget).links(child));
        let across = child_key(key, child, Orientation::Horizontal);
        let down = child_key(key, child, Orientation::Vertical);
        if t.at(child).is_container() {
            lemma_questions_are_new(t, memo, across);
            lemma_questions_are_new(t, memo, down);
        }
        lemma_child_questions_are_new(t, memo, key, i + 1);
    }
}

/// What is answered to a question: the size that a layout measured, or the
/// minimum that a native widget reported.
pub struct MeasureReply {
    pub size: Size,
    pub minimum: i32,
}

impl MemoView {
    /// The memo once `question` was answered.
    pub open spec fn answered(self, question: MeasureQuestion, reply: MeasureReply) -> MemoView {
        match question {
            MeasureQuestion::Natural { key } => MemoView {
                naturals: self.naturals.insert(key, reply.size),
                ..self
            },
            MeasureQuestion::Leaf { key } => MemoView {
                leaves: self.leaves.insert(key, reply.minimum),
                ..self
            },
            MeasureQuestion::Floor { key } => MemoView {
                extents: self.extents.insert(key, extents_of(self.naturals[key], reply.size)),
                ..self
            },
        }
    }
}

impl MemoView {
    /// What the toolkit is told for `key`, once it is settled: minimum, natural
    /// extent and no baselines.
    pub open spec fn reported(self, key: MeasureKey) -> Option<(i32, i32, i32, i32)> {
        if self.extents.contains_key(key) {
            let e = self.extents[key];
            match key.orientation {
                Orientation::Horizontal => Some((e.min_width, e.natural_width, -1i32, -1i32)),
                Orientation::Vertical => Some((e.min_height, e.natural_height, -1i32, -1i32)),
            }
        } else {
            None
        }
    }
}

impl TreeView {
    /// The memo of a pass for `key` that began with `memo` and was given
    /// `replies`, each to the question that was open then.
    pub open spec fn replied(
        self,
        memo: MemoView,
        key: MeasureKey,
        replies: Seq<MeasureReply>,
    ) -> MemoView
        decreases replies.len(),
    {
        if replies.len() == 0 {
            memo
        } else {
            let before = self.replied(memo, key, replies.drop_last());
            match self.measure_step(before, key) {
                Some(question) => before.answered(question, replies.last()),
                None => before,
            }
        }
    }

    /// The `i`th of the questions that a pass for `key` can ask: six for each
    /// widget, a natural and a floor question in each of three variants.
    spec fn question_at(self, key: MeasureKey, i: nat) -> MeasureQuestion {
        let widget = (i / 6) as usize;
        let asked = if i % 6 < 2 {
            MeasureKey { widget, ..key }
        } else if i % 6 < 4 {
            MeasureKey { widget, orientation: Orientation::Horizontal, for_size: -1i32 }
        } else {
            MeasureKey { widget, orientation: Orientation::Vertical, for_size: -1i32 }
        };
        if !self.at(widget).is_container() {
            MeasureQuestion::Leaf { key: asked }
        } else if i % 2 == 0 {
            MeasureQuestion::Natural { key: asked }
        } else {
            MeasureQuestion::Floor { key: asked }
        }
    }

    /// How many of the first `n` questions are still open.
    spec fn open_questions(self, memo: MemoView, key: MeasureKey, n: nat) -> nat
        decreases n,
    {
        if n == 0 {
            0
        } else {
            self.open_questions(memo, key, (n - 1) as nat) + if memo.settles(
                self.question_at(key, (n - 1) as nat),
            ) {
                0nat
            } else {
                1nat
            }
        }
    }
}

proof fn lemma_no_more_open_than_there_are(t: TreeView, memo: MemoView, key: MeasureKey, n: nat)
    ensures
        t.open_questions(memo, key, n) <= n,
    decreases n,
{
    if n > 0 {
        lemma_no_more_open_than_there_are(t, memo, key, (n - 1) as nat);
    }
}

/// An answer leaves fewer questions open.
proof fn lemma_fewer_open(
    t: TreeView,
    memo: MemoView,
    key: MeasureKey,
    question: MeasureQuestion,
    reply: MeasureReply,
    n: nat,
    j: nat,
)
    requires
        !memo.settles(question),
        question == t.question_at(key, j),
    ensures
        t.open_questions(memo.answered(question, reply), key, n) + (if j < n {
            1nat
        } else {
            0nat
        }) <= t.open_questions(memo, key, n),
    decreases n,
{
    if n > 0 {
        lemma_fewer_open(t, memo, key, question, reply, (n - 1) as nat, j);
        assert(memo.settles(t.question_at(key, (n - 1) as nat)) ==> memo.answered(
            question,
            reply,
        ).settles(t.question_at(key, (n - 1) as nat)));
        assert(memo.answered(question, reply).settles(question));
    }
}

/// The place of a question among those that a pass can ask.
proof fn lemma_question_has_a_place(
    t: TreeView,
    memo: MemoView,
    key: MeasureKey,
    question: MeasureQuestion,
) -> (j: nat)
    requires
        t.well_asked(memo, key, question),
    ensures
        j < 6 * t.widgets.len(),
        t.question_at(key, j) == question,
{
    let about = question.about();
    let variant: nat = if about.orientation == key.orientation && about.for_size == key.for_size {
        0
    } else if about.orientation == Orientation::Horizontal {
        2
    } else {
        4
    };
    let kind: nat = if question is Floor {
        1
    } else {
        0
    };
    let j: nat = (6 * about.widget + variant + kind) as nat;
    assert(j / 6 == about.widget && j % 6 == variant + kind && j % 2 == kind);
    j
}

proof fn lemma_replies_count_down(
    t: TreeView,
    memo: MemoView,
    key: MeasureKey,
    replies: Seq<MeasureReply>,
)
    requires
        t.wf(),
        t.has(key.widget),
        t.at(key.widget).is_container(),
    ensures
        t.measure_step(t.replied(memo, key, replies), key) is Some ==> replies.len()
            + t.open_questions(t.replied(memo, key, replies), key, 6 * t.widgets.len())
            <= t.open_questions(memo, key, 6 * t.widgets.len()),
    decreases replies.len(),
{
    if replies.len() > 0 {
        let before = t.replied(memo, key, replies.drop_last());
        lemma_replies_count_down(t, memo, key, replies.drop_last());
        if let Some(question) = t.measure_step(before, key) {
            lemma_questions_are_new(t, before, key);
            let j = lemma_question_has_a_place(t, before, key, question);
            lemma_fewer_open(t, before, key, question, replies.last(), 6 * t.widgets.len(), j);
        }
    }
}

/// A negotiation takes a number of questions linear in the size of the tree:
/// whatever is answered, no more than six for each widget are asked before it
/// is settled.
pub proof fn lemma_negotiation_is_linear(
    t: TreeView,
    memo: MemoView,
    key: MeasureKey,
    replies: Seq<MeasureReply>,
)
    requires
        t.wf(),
        t.has(key.widget),
        t.at(key.widget).is_container(),
    ensures
        t.measure_step(t.replied(memo, key, replies), key) is Some ==> replies.len() < 6
            * t.widgets.len(),
        replies.len() >= 6 * t.widgets.len() ==> t.replied(
            memo,
            key,
            replies,
        ).extents.contains_key(key),
{
    let after = t.replied(memo, key, replies);
    let n = 6 * t.widgets.len();
    lemma_replies_count_down(t, memo, key, replies);
    lemma_no_more_open_than_there_are(t, memo, key, n);
    lemma_questions_are_new(t, after, key);
    if let Some(question) = t.measure_step(after, key) {
        let j = lemma_question_has_a_place(t, after, key, question);
        let reply = MeasureReply {
            size: Size { width: Single { bits: 0 }, height: Single { bits: 0 } },
            minimum: 0,
        };
        lemma_fewer_open(t, after, key, question, reply, n, j);
    }
}

impl MeasureMemo {
    /// A memo without answers.
    pub fn new() -> (r: MeasureMemo)
        ensures
            r@ == (MemoView {
                naturals: Map::empty(),
                leaves: Map::empty(),
                extents: Map::empty(),
            }),
    {
        broadcast use vstd::std_specs::hash::group_hash_axioms;

        MeasureMemo { naturals: HashMap::new(), leaves: HashMap::new(), extents: HashMap::new() }
    }

    /// Takes what the layout of container `key.widget` measured with its
    /// children.
    pub fn answer_natural(&mut self, key: MeasureKey, natural: Size)
        ensures
            final(self)@ == old(self)@.answered(
                MeasureQuestion::Natural { key },
                MeasureReply { size: natural, minimum: 0 },
            ),
            final(self)@ == (MemoView {
                naturals: old(self)@.naturals.insert(key, natural),
                ..old(self)@
            }),
    {
        broadcast use vstd::std_specs::hash::group_hash_axioms;

        proof {
            lemma_filed_insert(self.naturals@, key, natural);
        }
        self.naturals.insert(key.pack(), natural);
    }

    /// Takes the minimum that a native widget reported.
    pub fn answer_leaf(&mut self, key: MeasureKey, minimum: i32)
        ensures
            forall|size: Size|
                final(self)@ == #[trigger] old(self)@.answered(
                    MeasureQuestion::Leaf { key },
                    MeasureReply { size, minimum },
                ),
            final(self)@ == (MemoView {
                leaves: old(self)@.leaves.insert(key, minimum),
                ..old(self)@
            }),
    {
        broadcast use vstd::std_specs::hash::group_hash_axioms;

        proof {
            lemma_filed_insert(self.leaves@, key, minimum);
        }
        self.leaves.insert(key.pack(), minimum);
    }

    /// Takes what the layout of container `key.widget` measured with the
    /// children's minimums, and settles the container's extents.
    pub fn answer_floor(&mut self, key: MeasureKey, floor: Size)
        requires
            old(self)@.naturals.contains_key(key),
        ensures
            final(self)@ == old(self)@.answered(
                MeasureQuestion::Floor { key },
                MeasureReply { size: floor, minimum: 0 },
            ),
            final(self)@ == (MemoView {
                extents: old(self)@.extents.insert(
                    key,
                    extents_of(old(self)@.naturals[key], floor),
                ),
                ..old(self)@
            }),
    {
        broadcast use vstd::std_specs::hash::group_hash_axioms;

        let code: u128 = key.pack();
        if let Some(natural) = self.naturals.get(&code) {
            let natural_width: i32 = to_pixels(natural.width);
            let natural_height: i32 = to_pixels(natural.height);
            let floor_width: i32 = to_pixels(floor.width);
            let floor_height: i32 = to_pixels(floor.height);
            let extents: ContainerExtents = ContainerExtents {
                min_width: if floor_width < natural_width { floor_width } else { natural_width },
                min_height: if floor_height < natural_height {
                    floor_height
                } else {
                    natural_height
                },
                natural_width,
                natural_height,
            };
            proof {
                lemma_filed_insert(self.extents@, key, extents);
            }
            self.extents.insert(code, extents);
        }
    }

    /// The extents settled for `key`.
    pub fn extents(&self, key: MeasureKey) -> (r: Option<ContainerExtents>)
        ensures
            r == if self@.extents.contains_key(key) {
                Some(self@.extents[key])
            } else {
                None
            },
    {
        broadcast use vstd::std_specs::hash::group_hash_axioms;

        match self.extents.get(&key.pack()) {
            Some(extents) => Some(*extents),
            None => None,
        }
    }

    fn has_natural(&self, key: MeasureKey) -> (r: bool)
        ensures
            r == self@.naturals.contains_key(key),
    {
        broadcast use vstd::std_specs::hash::group_hash_axioms;

        self.naturals.contains_key(&key.pack())
    }

    /// The minimum of `key.widget` in the orientation asked for, once known.
    pub fn child_min(&self, tree: &WidgetTree, key: MeasureKey) -> (r: Option<i32>)
        requires
            tree@.has(key.widget),
        ensures
            r == tree@.known_minimum(self@, key),
    {
        broadcast use vstd::std_specs::hash::group_hash_axioms;

        let container: bool = match &tree.widgets[key.widget].kind {
            WidgetKind::Container(_) => true,
            _ => false,
        };
        if container {
            match self.extents(key) {
                Some(extents) => match key.orientation {
                    Orientation::Horizontal => Some(extents.min_width),
                    Orientation::Vertical => Some(extents.min_height),
                },
                None => None,
            }
        } else {
            match self.leaves.get(&key.pack()) {
                Some(minimum) => Some(*minimum),
                None => None,
            }
        }
    }
}

/// The key under which `child` is asked on behalf of `key`.
fn key_for_child(key: MeasureKey, child: usize, along: Orientation) -> (r: MeasureKey)
    ensures
        r == child_key(key, child, along),
{
    MeasureKey {
        widget: child,
        orientation: along,
        for_size: if along == key.orientation { key.for_size } else { -1 },
    }
}

/// What has to be asked next before container `key.widget` can answer `key`;
/// nothing once its extents are settled.
pub fn measure_question(tree: &WidgetTree, memo: &MeasureMemo, key: MeasureKey) -> (r: Option<
    MeasureQuestion,
>)
    requires
        tree@.wf(),
        tree@.has(key.widget),
        tree@.at(key.widget).is_container(),
    ensures
        r == tree@.measure_step(memo@, key),
        r matches Some(question) ==> tree@.well_asked(memo@, key, question),
    decreases tree@.rank[key.widget as int],
{
    proof {
        lemma_questions_are_new(tree@, memo@, key);
    }
    if memo.extents(key).is_some() {
        return None;
    }
    if !memo.has_natural(key) {
        return Some(MeasureQuestion::Natural { key });
    }
    let mut i: usize = 0;
    while i < tree.widgets[key.widget].children.len()
        invariant
            tree@.wf(),
            tree@.has(key.widget),
            tree@.at(key.widget).is_container(),
            i <= tree@.at(key.widget).children@.len(),
            !memo@.extents.contains_key(key),
            memo@.naturals.contains_key(key),
            tree@.children_step(memo@, key, i as nat) == tree@.children_step(memo@, key, 0),
            tree@.measure_step(memo@, key) matches Some(question) ==> tree@.well_asked(
                memo@,
                key,
                question,
            ),
        decreases tree@.at(key.widget).children@.len() - i,
    {
        let child: usize = tree.widgets[key.widget].children[i];
        assert(tree@.at(key.widget).children@.contains(child));
        assert(tree@.at(key.widget).links(child));
        let container: bool = match &tree.widgets[child].kind {
            WidgetKind::Container(_) => true,
            _ => false,
        };
        let across: MeasureKey = key_for_child(key, child, Orientation::Horizontal);
        let down: MeasureKey = key_for_child(key, child, Orientation::Vertical);
        if memo.child_min(tree, across).is_none() {
            if container {
                proof {
                    lemma_questions_are_new(tree@, memo@, across);
                }
                return measure_question(tree, memo, across);
            }
            return Some(MeasureQuestion::Leaf { key: across });
        }
        if memo.child_min(tree, down).is_none() {
            if container {
                proof {
                    lemma_questions_are_new(tree@, memo@, down);
                }
                return measure_question(tree, memo, down);
            }
            return Some(MeasureQuestion::Leaf { key: down });
        }
        i = i + 1;
    }
    Some(MeasureQuestion::Floor { key })
}

/// The children of container `key.widget` as boxes of their minimums, in
/// order; a minimum below zero counts as none.
pub fn minimum_children(tree: &WidgetTree, memo: &MeasureMemo, key: MeasureKey) -> (r: Vec<
    FixedSizeSubView,
>)
    requires
        tree@.wf(),
        tree@.has(key.widget),
        tree@.at(key.widget).is_container(),
        tree@.floors_known(memo@, key),
    ensures
        r@ == tree@.minimum_boxes(memo@, key),
{
    let mut r: Vec<FixedSizeSubView> = Vec::new();
    let mut i: usize = 0;
    let ghost wanted = tree@.minimum_boxes(memo@, key);
    assert(tree@.at(key.widget).sound());
    while i < tree.widgets[key.widget].children.len()
        invariant
            tree@.wf(),
            tree@.has(key.widget),
            tree@.at(key.widget).is_container(),
            tree@.at(key.widget).sound(),
            tree@.floors_known(memo@, key),
            i <= tree@.at(key.widget).children@.len(),
            wanted == tree@.minimum_boxes(memo@, key),
            r@ == wanted.take(i as int),
        decreases tree@.at(key.widget).children@.len() - i,
    {
        let child: usize = tree.widgets[key.widget].children[i];
        assert(tree@.at(key.widget).children@.contains(child));
        assert(tree@.at(key.widget).links(child));
        let width: i32 = match memo.child_min(
            tree,
            key_for_child(key, child, Orientation::Horizontal),
        ) {
            Some(minimum) => minimum,
            None => 0,
        };
        let height: i32 = match memo.child_min(
            tree,
            key_for_child(key, child, Orientation::Vertical),
        ) {
            Some(minimum) => minimum,
            None => 0,
        };
        let axis: StretchAxis = match &tree.widgets[key.widget].kind {
            WidgetKind::Container(state) => state.axes[i],
            _ => StretchAxis::Neither,
        };
        let size: Size = Size {
            width: Single::from_i32(if width < 0 { 0 } else { width }),
            height: Single::from_i32(if height < 0 { 0 } else { height }),
        };
        r.push(FixedSizeSubView::new(size, axis));
        assert(wanted.take(i + 1) =~= wanted.take(i as int).push(wanted[i as int]));
        i = i + 1;
    }
    assert(wanted.take(i as int) =~= wanted);
    r
}

impl WuiFixedContainer {
    /// The children with the axes recorded for them, as the layout engine
    /// sees them.
    pub fn subviews(&self, tree: &WidgetTree) -> (r: Vec<GtkSubView>)
        requires
            tree@.wf(),
            tree@.has(self.widget),
            tree@.at(self.widget).is_container(),
        ensures
            r@ == tree@.subviews(self.widget),
    {
        let mut r: Vec<GtkSubView> = Vec::new();
        let mut i: usize = 0;
        let ghost wanted = tree@.subviews(self.widget);
        assert(tree@.at(self.widget).sound());
        while i < tree.widgets[self.widget].children.len()
            invariant
                tree@.has(self.widget),
                tree@.at(self.widget).is_container(),
                tree@.at(self.widget).sound(),
                i <= tree@.at(self.widget).children@.len(),
                wanted == tree@.subviews(self.widget),
                r@ == wanted.take(i as int),
            decreases tree@.at(self.widget).children@.len() - i,
        {
            let axis: StretchAxis = match &tree.widgets[self.widget].kind {
                WidgetKind::Container(state) => state.axes[i],
                _ => StretchAxis::Neither,
            };
            r.push(GtkSubView::new(tree.widgets[self.widget].children[i], axis));
            assert(wanted.take(i + 1) =~= wanted.take(i as int).push(wanted[i as int]));
            i = i + 1;
        }
        assert(wanted.take(i as int) =~= wanted);
        r
    }

    /// How the container answers `proposal`: what `memo` recorded for it comes
    /// first, else its layout measures its children.
    pub fn layout_measure_shared(
        &self,
        tree: &WidgetTree,
        proposal: ProposalSize,
        memo: Option<&LayoutMeasureMemo>,
    ) -> (r: LayoutMeasure)
        requires
            tree@.wf(),
            tree@.has(self.widget),
            tree@.at(self.widget).is_container(),
        ensures
            ({
                let known = match memo {
                    Some(memo) => memo.recorded(self.widget, proposal),
                    None => None,
                };
                match r {
                    LayoutMeasure::Recorded(dimensions) => known == Some(dimensions@),
                    LayoutMeasure::Engine(subviews) => known is None && subviews@ == tree@.subviews(
                        self.widget,
                    ),
                }
            }),
    {
        if let Some(memo) = memo {
            if let Some(dimensions) = memo.lookup(self.widget, proposal) {
                return LayoutMeasure::Recorded(dimensions);
            }
        }
        LayoutMeasure::Engine(self.subviews(tree))
    }

    /// Where the axis that this container claims comes from: its layout, asked
    /// with what the children claim now. An empty container falls back on the
    /// axis recorded when it was rendered.
    pub fn live_stretch_axis(&self, tree: &WidgetTree, engine: &EngineAxes) -> (r: LiveAxis)
        requires
            tree@.wf(),
            tree@.has(self.widget),
            tree@.at(self.widget).is_container(),
            engine.answers@.len() == tree@.widgets.len(),
        ensures
            r is Recorded <==> tree@.answers_as_recorded(self.widget),
            match r {
                LiveAxis::Recorded(axis) => tree@.at(self.widget).children@.len() == 0
                    && tree@.marker(self.widget).reported_axis == Some(axis),
                LiveAxis::Engine(axes) => (tree@.at(self.widget).children@.len() > 0
                    || tree@.marker(self.widget).reported_axis is None) && axes@
                    == tree@.child_axes(engine.answers@, self.widget),
            },
    {
        if tree.widgets[self.widget].children.len() == 0 {
            if let Some(axis) = reported_axis(tree, self.widget) {
                return LiveAxis::Recorded(axis);
            }
        }
        LiveAxis::Engine(collect_axes(tree, engine, self.widget))
    }

    /// The toolkit's answer for one orientation: minimum, natural extent and
    /// no baselines, once the pass has settled it.
    pub fn measure(&self, memo: &MeasureMemo, orientation: Orientation, for_size: i32) -> (r:
        Option<(i32, i32, i32, i32)>)
        ensures
            r == memo@.reported(MeasureKey { widget: self.widget, orientation, for_size }),
    {
        match memo.extents(MeasureKey { widget: self.widget, orientation, for_size }) {
            Some(extents) => match orientation {
                Orientation::Horizontal => Some((extents.min_width, extents.natural_width, -1, -1)),
                Orientation::Vertical => Some((extents.min_height, extents.natural_height, -1, -1)),
            },
            None => None,
        }
    }
}

/// The minimum of a container is the floor of its children wherever that is
/// within the natural extent, and the natural extent otherwise; width and height
/// go by the same law, and each by itself.
pub proof fn lemma_minimum_is_the_floor(natural: Size, floor: Size)
    ensures
        ({
            let e = extents_of(natural, floor);
            let turned = extents_of(
                Size { width: natural.height, height: natural.width },
                Size { width: floor.height, height: floor.width },
            );
            &&& e.natural_width == pixels(natural.width)
            &&& e.natural_height == pixels(natural.height)
            &&& pixels(floor.width) <= pixels(natural.width) ==> e.min_width == pixels(floor.width)
            &&& pixels(floor.width) > pixels(natural.width) ==> e.min_width == e.natural_width
            &&& pixels(floor.height) <= pixels(natural.height) ==> e.min_height == pixels(
                floor.height,
            )
            &&& pixels(floor.height) > pixels(natural.height) ==> e.min_height == e.natural_height
            &&& turned.min_width == e.min_height && turned.min_height == e.min_width
            &&& turned.natural_width == e.natural_height && turned.natural_height
                == e.natural_width
        }),
{
}

/// What the toolkit is told at the end of a negotiation, in terms of what the
/// layout measured. In the orientation asked for, the natural extent is the
/// whole number nearest to the natural measurement; the minimum is the one
/// nearest to the floor, or the natural extent where that is less. There are no
/// baselines. A container further up reckons with the same minimum.
pub proof fn lemma_toolkit_is_told_the_floor(
    t: TreeView,
    memo: MemoView,
    key: MeasureKey,
    natural: Size,
    floor: Size,
)
    requires
        t.at(key.widget).is_container(),
    ensures
        ({
            let after = memo.answered(
                MeasureQuestion::Natural { key },
                MeasureReply { size: natural, minimum: 0 },
            ).answered(MeasureQuestion::Floor { key }, MeasureReply { size: floor, minimum: 0 });
            let (wanted, least) = match key.orientation {
                Orientation::Horizontal => (natural.width, floor.width),
                Orientation::Vertical => (natural.height, floor.height),
            };
            after.reported(key) matches Some((minimum, extent, first, last)) && {
                &&& first == -1 && last == -1
                &&& 0 <= minimum <= extent
                &&& extent == pixels(wanted)
                &&& minimum == extent || minimum == pixels(least)
                &&& minimum <= pixels(least)
                &&& t.known_minimum(after, key) == Some(minimum)
                &&& !wanted.nan() && wanted.value() >= 0 && extent < i32::MAX ==> (2 * extent - 1)
                    * pow2(149) <= 2 * wanted.value() < (2 * extent + 1) * pow2(149)
                &&& !least.nan() && least.value() >= 0 && minimum < extent ==> (2 * minimum - 1)
                    * pow2(149) <= 2 * least.value() < (2 * minimum + 1) * pow2(149)
            }
        }),
{
    lemma_pixels_are_nearest(natural.width);
    lemma_pixels_are_nearest(natural.height);
    lemma_pixels_are_nearest(floor.width);
    lemma_pixels_are_nearest(floor.height);
}

/// Answers are kept apart: an answer for one question changes nothing of what is
/// known about another widget, orientation or constraint.
pub proof fn lemma_answers_are_kept_apart(
    t: TreeView,
    memo: MemoView,
    question: MeasureQuestion,
    reply: MeasureReply,
    other: MeasureKey,
)
    requires
        question.about() != other,
    ensures
        t.known_minimum(memo.answered(question, reply), other) == t.known_minimum(memo, other),
        memo.answered(question, reply).reported(other) == memo.reported(other),
        memo.answered(question, reply).naturals.contains_key(other) == memo.naturals.contains_key(
            other,
        ),
{
}

/// A native child's minimum is what the toolkit reported for it.
pub proof fn lemma_leaf_minimum_is_what_was_reported(
    t: TreeView,
    memo: MemoView,
    key: MeasureKey,
    reply: MeasureReply,
)
    requires
        !t.at(key.widget).is_container(),
    ensures
        t.known_minimum(memo.answered(MeasureQuestion::Leaf { key }, reply), key) == Some(
            reply.minimum,
        ),
{
}

/// Each child stands in the floor as a box of its own minimums, across and down,
/// with the axis recorded for it; a minimum below zero counts as none.
pub proof fn lemma_boxes_are_the_minimums(t: TreeView, memo: MemoView, key: MeasureKey, i: int)
    requires
        0 <= i < t.at(key.widget).children@.len(),
    ensures
        t.minimum_boxes(memo, key).len() == t.at(key.widget).children@.len(),
        ({
            let child = t.at(key.widget).children@[i];
            let part = t.minimum_boxes(memo, key)[i];
            let across = t.known_minimum(memo, child_key(key, child, Orientation::Horizontal));
            let down = t.known_minimum(memo, child_key(key, child, Orientation::Vertical));
            &&& across matches Some(m) ==> 0 <= m < 0x100_0000 ==> part.size.width.value() == m
                * pow2(149)
            &&& across matches Some(m) ==> m >= 0 ==> part.size.width == Single::of_int(m as int)
            &&& across matches Some(m) ==> m < 0 ==> part.size.width.value() == 0
            &&& down matches Some(m) ==> 0 <= m < 0x100_0000 ==> part.size.height.value() == m
                * pow2(149)
            &&& down matches Some(m) ==> m >= 0 ==> part.size.height == Single::of_int(m as int)
            &&& down matches Some(m) ==> m < 0 ==> part.size.height.value() == 0
            &&& part.stretch_axis == t.at(key.widget).container().axes@[i]
        }),
{
    let child = t.at(key.widget).children@[i];
    lemma_small_whole_is_exact(0);
    assert(0 * pow2(149) == 0);
    if let Some(m) = t.known_minimum(memo, child_key(key, child, Orientation::Horizontal)) {
        if 0 <= m < 0x100_0000 {
            lemma_small_whole_is_exact(m as int);
        }
    }
    if let Some(m) = t.known_minimum(memo, child_key(key, child, Orientation::Vertical)) {
        if 0 <= m < 0x100_0000 {
            lemma_small_whole_is_exact(m as int);
        }
    }
}

/// A child is asked under its container's constraint in the orientation that the
/// container is asked in, and freely in the other.
pub proof fn lemma_children_are_asked_alike(key: MeasureKey, child: usize, along: Orientation)
    ensures
        child_key(key, child, along).widget == child,
        child_key(key, child, along).orientation == along,
        along == key.orientation ==> child_key(key, child, along).for_size == key.for_size,
        along != key.orientation ==> child_key(key, child, along).for_size == -1,
{
}

/// The engine is asked under the constraint that the toolkit put, on the other
/// orientation than the one asked for, and under no other: read as a constraint
/// again, it is the same.
pub proof fn lemma_constraints_are_passed_on(orientation: Orientation, constraint: i32)
    requires
        -0x100_0000 < constraint < 0x100_0000,
    ensures
        ({
            let p = asked_proposal(orientation, constraint);
            let (along, other) = match orientation {
                Orientation::Horizontal => (p.width, p.height),
                Orientation::Vertical => (p.height, p.width),
            };
            &&& along is None
            &&& constraint >= 0 ==> other is Some && for_size(other) == constraint
            &&& constraint >= 0 ==> other->0.value() == constraint * pow2(149)
            &&& constraint < 0 ==> other is None
        }),
{
    lemma_small_whole_is_exact(constraint as int);
    lemma_small_whole_stays_whole(constraint as int);
}

/// The engine sees each child of a container in its place, with the axis
/// recorded for it.
pub proof fn lemma_subviews_are_the_children(t: TreeView, w: usize, i: int)
    requires
        0 <= i < t.at(w).children@.len(),
    ensures
        t.subviews(w).len() == t.at(w).children@.len(),
        t.subviews(w)[i].widget == t.at(w).children@[i],
        t.subviews(w)[i].stretch_axis == t.at(w).container().axes@[i],
{
}

/// A container is asked for its natural size first, then its children for what
/// they owe, and for its floor at last, once it is owed nothing; and then for
/// nothing more.
pub proof fn lemma_questions_have_their_order(t: TreeView, memo: MemoView, key: MeasureKey)
    requires
        t.wf(),
        t.has(key.widget),
        t.at(key.widget).is_container(),
    ensures
        memo.extents.contains_key(key) ==> t.measure_step(memo, key) is None,
        !memo.extents.contains_key(key) && !memo.naturals.contains_key(key) ==> t.measure_step(
            memo,
            key,
        ) == Some(MeasureQuestion::Natural { key }),
        !memo.extents.contains_key(key) && memo.naturals.contains_key(key) && t.floors_known(
            memo,
            key,
        ) ==> t.measure_step(memo, key) == Some(MeasureQuestion::Floor { key }),
        !memo.extents.contains_key(key) && memo.naturals.contains_key(key) && !t.floors_known(
            memo,
            key,
        ) ==> (t.measure_step(memo, key) matches Some(question) && t.rank[question.about().widget as int]
            < t.rank[key.widget as int]),
    decreases t.rank[key.widget as int], t.at(key.widget).children@.len() + 1,
{
    if !memo.extents.contains_key(key) && memo.naturals.contains_key(key) {
        lemma_owing_children_come_first(t, memo, key, 0);
    }
}

/// The question on behalf of children is one about them or what they hold, and
/// there is one as long as any of them owes an answer.
proof fn lemma_owing_children_come_first(t: TreeView, memo: MemoView, key: MeasureKey, i: nat)
    requires
        t.wf(),
        t.has(key.widget),
        t.at(key.widget).is_container(),
        i <= t.at(key.widget).children@.len(),
    ensures
        t.children_step(memo, key, i) matches Some(question) ==> t.rank[question.about().widget as int]
            < t.rank[key.widget as int],
        t.children_step(memo, key, i) is None <==> forall|j: int|
            #![trigger t.at(key.widget).children@[j]]
            i <= j < t.at(key.widget).children@.len() ==> t.known_minimum(
                memo,
                child_key(key, t.at(key.widget).children@[j], Orientation::Horizontal),
            ) is Some && t.known_minimum(
                memo,
                child_key(key, t.at(key.widget).children@[j], Orientation::Vertical),
            ) is Some,
    decreases t.rank[key.widget as int], t.at(key.widget).children@.len() - i,
{
    if i < t.at(key.widget).children@.len() {
        let child = t.at(key.widget).children@[i as int];
        assert(t.at(key.widget).children@.contains(child));
        assert(t.at(key.widget).links(child));
        let across = child_key(key, child, Orientation::Horizontal);
        let down = child_key(key, child, Orientation::Vertical);
        if t.at(child).is_container() {
            lemma_step_stays_below(t, memo, across);
            lemma_step_stays_below(t, memo, down);
        }
        lemma_owing_children_come_first(t, memo, key, i + 1);
    }
}

proof fn lemma_step_stays_below(t: TreeView, memo: MemoView, key: MeasureKey)
    requires
        t.wf(),
        t.has(key.widget),
        t.at(key.widget).is_container(),
    ensures
        t.measure_step(memo, key) is None <==> memo.extents.contains_key(key),
        t.measure_step(memo, key) matches Some(question) ==> t.rank[question.about().widget as int]
            <= t.rank[key.widget as int],
    decreases t.rank[key.widget as int], t.at(key.widget).children@.len() + 1,
{
    if !memo.extents.contains_key(key) && memo.naturals.contains_key(key) {
        lemma_owing_children_come_first(t, memo, key, 0);
    }
}

} // verus!
