//! Widgets, containers and hosts laid out by the real layout engine. The
//! toolkit is stood in for by the extents it would report.

use std::cell::{Cell, RefCell};
use std::collections::HashMap;
use std::rc::Rc;

use waterui_core::layout as engine;
use waterui_core::layout::{Layout, PlacedSubview, SubView};
use waterui_gtk::components::layout::fixed_container_measure::{
    floor_proposal, measure_proposal, measure_question, minimum_children, LayoutMeasure, LiveAxis, MeasureKey,
    MeasureMemo, MeasureQuestion,
};
use waterui_gtk::components::layout::fixed_container_widget::WuiFixedContainer;
use waterui_gtk::components::layout::lazy_container::{
    bind_row, lazy_plan, reconcile, render_lazy, row_matches, Align, LazyStackAxis, RowSplice,
};
use waterui_gtk::components::layout::list::{delete_button, deleted_row, scroll_target, shows_delete, WuiListRow};
use waterui_gtk::components::layout::spacer::render_spacer;
use waterui_gtk::components::nav::enforce_single_line_labels;
use waterui_gtk::components::platform::dynamic::{render_dynamic, replace_child};
use waterui_gtk::geometry::{
    HorizontalAlignment, Orientation, Point, ProposalSize, Rect, Size, StretchAxis,
    SubviewPlacement, VerticalAlignment, ViewDimensions,
};
use waterui_gtk::layout::memo::LayoutMeasureMemo;
use waterui_gtk::layout::placer::apply_placements;
use waterui_gtk::layout::proposal::{
    axis_question, deliver_proposal, forward_box_content_slot, forward_proposals_to_child,
    measure_provider, note_reported_axis, proposals_equal, query_axis, query_priority,
    reoffer_proposal, retained_proposal, row_offer, scroll_axes_for, scroll_offer,
    set_layout_priority, set_scroll_axes, shrink_extent, transparent_to_content, EngineAxes,
};
use waterui_gtk::layout::subview::{
    leaf_measure, proposal_extent_to_for_size, FixedSizeSubView, GtkSubView, LeafExtents,
    MeasureTarget,
};
use waterui_gtk::layout::widget::{Margins, NaturalSize, WidgetKind, WidgetTree};
use waterui_gtk::single::Single;
use waterui_layout::stack::{HStackLayout, VStackLayout};

fn single(value: f32) -> Single {
    Single::from_bits(value.to_bits())
}

fn float(value: Single) -> f32 {
    f32::from_bits(value.to_bits())
}

fn proposal(width: Option<f32>, height: Option<f32>) -> ProposalSize {
    ProposalSize::new(width.map(single), height.map(single))
}

fn to_engine(p: ProposalSize) -> engine::ProposalSize {
    engine::ProposalSize::new(p.width.map(float), p.height.map(float))
}

fn from_engine(p: engine::ProposalSize) -> ProposalSize {
    proposal(p.width, p.height)
}

fn axis_to_engine(axis: StretchAxis) -> engine::StretchAxis {
    match axis {
        StretchAxis::Neither => engine::StretchAxis::None,
        StretchAxis::Horizontal => engine::StretchAxis::Horizontal,
        StretchAxis::Vertical => engine::StretchAxis::Vertical,
        StretchAxis::Both => engine::StretchAxis::Both,
        StretchAxis::MainAxis => engine::StretchAxis::MainAxis,
        StretchAxis::CrossAxis => engine::StretchAxis::CrossAxis,
    }
}

fn axis_from_engine(axis: engine::StretchAxis) -> StretchAxis {
    match axis {
        engine::StretchAxis::None => StretchAxis::Neither,
        engine::StretchAxis::Horizontal => StretchAxis::Horizontal,
        engine::StretchAxis::Vertical => StretchAxis::Vertical,
        engine::StretchAxis::Both => StretchAxis::Both,
        engine::StretchAxis::MainAxis => StretchAxis::MainAxis,
        engine::StretchAxis::CrossAxis => StretchAxis::CrossAxis,
    }
}

fn dimensions_to_engine(d: &ViewDimensions) -> engine::ViewDimensions {
    let mut r = engine::ViewDimensions::new(engine::Size::new(
        float(d.size.width),
        float(d.size.height),
    ));
    for (alignment, value) in &d.vertical_guides {
        let alignment = match alignment {
            VerticalAlignment::Top => engine::VerticalAlignment::Top,
            VerticalAlignment::Center => engine::VerticalAlignment::Center,
            VerticalAlignment::Bottom => engine::VerticalAlignment::Bottom,
            VerticalAlignment::FirstBaseline => engine::VerticalAlignment::FirstBaseline,
            VerticalAlignment::LastBaseline => engine::VerticalAlignment::LastBaseline,
        };
        r.set_vertical(alignment, float(*value));
    }
    for (alignment, value) in &d.horizontal_guides {
        let alignment = match alignment {
            HorizontalAlignment::Leading => engine::HorizontalAlignment::Leading,
            HorizontalAlignment::Center => engine::HorizontalAlignment::Center,
            HorizontalAlignment::Trailing => engine::HorizontalAlignment::Trailing,
        };
        r.set_horizontal(alignment, float(*value));
    }
    r
}

fn vertical_from_engine(alignment: engine::VerticalAlignment) -> VerticalAlignment {
    if alignment == engine::VerticalAlignment::Top {
        VerticalAlignment::Top
    } else if alignment == engine::VerticalAlignment::Center {
        VerticalAlignment::Center
    } else if alignment == engine::VerticalAlignment::Bottom {
        VerticalAlignment::Bottom
    } else if alignment == engine::VerticalAlignment::FirstBaseline {
        VerticalAlignment::FirstBaseline
    } else {
        VerticalAlignment::LastBaseline
    }
}

fn dimensions_from_engine(d: &engine::ViewDimensions) -> ViewDimensions {
    let mut r = ViewDimensions::new(Size {
        width: single(d.size.width),
        height: single(d.size.height),
    });
    for (alignment, value) in d.vertical_guides_in_order() {
        r.set_vertical(vertical_from_engine(alignment), single(value));
    }
    r
}

/// The vertical guides of the engine's dimensions.
trait Guides {
    fn vertical_guides_in_order(&self) -> Vec<(engine::VerticalAlignment, f32)>;
}

impl Guides for engine::ViewDimensions {
    fn vertical_guides_in_order(&self) -> Vec<(engine::VerticalAlignment, f32)> {
        self.explicit_vertical_guides().collect()
    }
}

/// What the toolkit reports for a native widget, margins included: minimum and
/// natural extent of an orientation under a constraint.
#[derive(Clone, Copy)]
struct NativeLeaf {
    min_width: i32,
    natural_width: i32,
    min_height: i32,
    line_height: i32,
    wraps: bool,
    baseline: i32,
}

impl NativeLeaf {
    fn text(width: i32) -> Self {
        NativeLeaf {
            min_width: width,
            natural_width: width,
            min_height: 17,
            line_height: 17,
            wraps: false,
            baseline: 13,
        }
    }

    fn wrapping(min_width: i32, width: i32) -> Self {
        NativeLeaf {
            min_width,
            natural_width: width,
            min_height: 17,
            line_height: 17,
            wraps: true,
            baseline: 13,
        }
    }

    fn measure(&self, orientation: Orientation, for_size: i32) -> (i32, i32, i32, i32) {
        match orientation {
            Orientation::Horizontal => {
                if self.wraps && for_size >= 0 {
                    (self.min_width, self.min_width, -1, -1)
                } else {
                    (self.min_width, self.natural_width, -1, -1)
                }
            }
            Orientation::Vertical => {
                let lines = if self.wraps && for_size > 0 {
                    (self.natural_width + for_size - 1) / for_size.max(1)
                } else {
                    1
                };
                let height = lines * self.line_height;
                (height.min(self.min_height).max(self.min_height), height, self.baseline, self.baseline)
            }
        }
    }
}

/// A window: the tree, the layouts of its containers and what the toolkit says
/// of its native widgets.
struct Stage {
    tree: WidgetTree,
    layouts: HashMap<usize, Rc<dyn Layout>>,
    leaves: HashMap<usize, NativeLeaf>,
    /// The content boxes that widgets were allocated: x, y, width, height.
    allocated: HashMap<usize, (f32, f32, i32, i32)>,
    /// What containers answered in the negotiation under way.
    memo: RefCell<Option<LayoutMeasureMemo>>,
}

struct Child<'a> {
    stage: &'a Stage,
    axes: &'a EngineAxes,
    view: GtkSubView,
}

impl SubView for Child<'_> {
    fn measure(&self, proposal: engine::ProposalSize) -> engine::ViewDimensions {
        dimensions_to_engine(&self.stage.probe(self.axes, self.view, from_engine(proposal)))
    }

    fn stretch_axis(&self) -> engine::StretchAxis {
        axis_to_engine(self.view.stretch_axis(&self.stage.tree, self.axes))
    }

    fn priority(&self) -> i32 {
        self.view.priority(&self.stage.tree)
    }
}

struct Fixed(FixedSizeSubView);

impl SubView for Fixed {
    fn measure(&self, proposal: engine::ProposalSize) -> engine::ViewDimensions {
        dimensions_to_engine(&self.0.measure(from_engine(proposal)))
    }

    fn stretch_axis(&self) -> engine::StretchAxis {
        axis_to_engine(self.0.stretch_axis())
    }

    fn priority(&self) -> i32 {
        self.0.priority()
    }
}

impl Stage {
    fn new() -> Self {
        Stage {
            tree: WidgetTree::new(),
            layouts: HashMap::new(),
            leaves: HashMap::new(),
            allocated: HashMap::new(),
            memo: RefCell::new(None),
        }
    }

    fn leaf(&mut self, leaf: NativeLeaf) -> usize {
        let widget = self.tree.add_widget(WidgetKind::Label {
            wrap: leaf.wraps,
            ellipsize: false,
        });
        self.leaves.insert(widget, leaf);
        widget
    }

    fn label(&mut self) -> (usize, StretchAxis) {
        (self.leaf(NativeLeaf::text(40)), StretchAxis::Neither)
    }

    fn linear(&mut self, orientation: Orientation, spacing: i32) -> usize {
        self.tree.add_widget(WidgetKind::Linear { orientation, spacing })
    }

    fn container(
        &mut self,
        layout: impl Layout,
        children: Vec<(usize, StretchAxis)>,
    ) -> WuiFixedContainer {
        let container = WuiFixedContainer::new(&mut self.tree, false, None, &children);
        self.layouts.insert(container.widget, Rc::new(layout));
        container
    }

    fn set_margins(&mut self, widget: usize, start: i32, end: i32, top: i32, bottom: i32) {
        self.tree.set_margins(widget, Margins { start, end, top, bottom });
    }

    /// Every axis that the engine has to be asked for, children first.
    fn axes(&self) -> EngineAxes {
        let mut axes = EngineAxes::new(self.tree.widgets.len());
        for widget in 0..self.tree.widgets.len() {
            while let Some(question) = axis_question(&self.tree, &axes, widget) {
                let claims: Vec<engine::StretchAxis> =
                    question.axes.iter().map(|axis| axis_to_engine(*axis)).collect();
                let answer = self.layouts[&question.container].stretch_axis(&claims);
                axes.answer(question.container, axis_from_engine(answer));
            }
        }
        axes
    }

    fn axis(&self, widget: usize) -> Option<StretchAxis> {
        query_axis(&self.tree, &self.axes(), widget)
    }

    fn with_children<R>(
        &self,
        axes: &EngineAxes,
        subviews: &[GtkSubView],
        pass: impl FnOnce(&[&dyn SubView]) -> R,
    ) -> R {
        let children: Vec<Child<'_>> = subviews
            .iter()
            .map(|view| Child { stage: self, axes, view: *view })
            .collect();
        let refs: Vec<&dyn SubView> = children.iter().map(|c| c as &dyn SubView).collect();
        pass(&refs)
    }

    fn measure_container(
        &self,
        axes: &EngineAxes,
        widget: usize,
        proposal: ProposalSize,
    ) -> ViewDimensions {
        let container = WuiFixedContainer { widget };
        let asked =
            container.layout_measure_shared(&self.tree, proposal, self.memo.borrow().as_ref());
        match asked {
            LayoutMeasure::Recorded(dimensions) => dimensions,
            LayoutMeasure::Engine(subviews) => {
                let dimensions = self.with_children(axes, &subviews, |refs| {
                    dimensions_from_engine(&engine::measure_layout(
                        self.layouts[&widget].as_ref(),
                        to_engine(proposal),
                        refs,
                    ))
                });
                if let Some(memo) = self.memo.borrow_mut().as_mut() {
                    memo.record(widget, proposal, dimensions.duplicate());
                }
                dimensions
            }
        }
    }

    fn probe(&self, axes: &EngineAxes, view: GtkSubView, proposal: ProposalSize) -> ViewDimensions {
        let plan = view.measure(&self.tree, axes, proposal);
        let inner = match plan.target {
            MeasureTarget::Spacer { size } => ViewDimensions::new(size),
            MeasureTarget::Container { widget, proposal } => {
                self.measure_container(axes, widget, proposal)
            }
            MeasureTarget::Leaf { widget, proposal, axis } => {
                let leaf = self.leaves[&widget];
                let (min_width, natural_width, _, _) = leaf.measure(Orientation::Horizontal, -1);
                let (min_height, natural_height, min_baseline, natural_baseline) = leaf
                    .measure(Orientation::Vertical, proposal_extent_to_for_size(proposal.width));
                leaf_measure(
                    proposal,
                    axis,
                    LeafExtents {
                        min_width,
                        natural_width,
                        min_height,
                        natural_height,
                        min_baseline,
                        natural_baseline,
                    },
                )
            }
        };
        plan.answer(&self.tree, inner)
    }

    fn measure(&self, widget: usize, axis: StretchAxis, proposal: ProposalSize) -> ViewDimensions {
        self.probe(&self.axes(), GtkSubView::new(widget, axis), proposal)
    }

    /// The toolkit's own measurement of a container, with the questions that it
    /// led to.
    fn negotiate(
        &self,
        container: WuiFixedContainer,
        orientation: Orientation,
        for_size: i32,
    ) -> ((i32, i32, i32, i32), Vec<MeasureQuestion>) {
        let axes = self.axes();
        *self.memo.borrow_mut() = Some(LayoutMeasureMemo::new());
        let mut memo = MeasureMemo::new();
        let mut asked = Vec::new();
        let key = MeasureKey { widget: container.widget, orientation, for_size };
        while let Some(question) = measure_question(&self.tree, &memo, key) {
            asked.push(question);
            match question {
                MeasureQuestion::Natural { key } => {
                    let size = self
                        .measure_container(
                            &axes,
                            key.widget,
                            measure_proposal(key.orientation, key.for_size),
                        )
                        .size;
                    memo.answer_natural(key, size);
                }
                MeasureQuestion::Leaf { key } => {
                    let (minimum, ..) =
                        self.leaves[&key.widget].measure(key.orientation, key.for_size);
                    memo.answer_leaf(key, minimum);
                }
                MeasureQuestion::Floor { key } => {
                    let boxes: Vec<Fixed> = minimum_children(&self.tree, &memo, key)
                        .into_iter()
                        .map(Fixed)
                        .collect();
                    let refs: Vec<&dyn SubView> =
                        boxes.iter().map(|b| b as &dyn SubView).collect();
                    let size = engine::measure_layout(
                        self.layouts[&key.widget].as_ref(),
                        to_engine(floor_proposal()),
                        &refs,
                    )
                    .size;
                    memo.answer_floor(
                        key,
                        Size { width: single(size.width), height: single(size.height) },
                    );
                }
            }
        }
        *self.memo.borrow_mut() = None;
        let answer = container.measure(&memo, orientation, for_size).expect("the pass is settled");
        (answer, asked)
    }

    /// Allocates a margin box at a place, as the toolkit does: the margins come
    /// off, then a container places its children and a box hands its area on.
    fn allocate(&mut self, widget: usize, width: i32, height: i32, x: f32, y: f32) {
        let margins = self.tree.widgets[widget].margins;
        let width = width - margins.start - margins.end;
        let height = height - margins.top - margins.bottom;
        let x = x + margins.start as f32;
        let y = y + margins.top as f32;
        self.allocated.insert(widget, (x, y, width, height));
        self.tree.widgets[widget].allocate_queued = false;
        if !self.layouts.contains_key(&widget) {
            for child in self.tree.widgets[widget].children.clone() {
                self.allocate(child, width, height, 0.0, 0.0);
            }
            return;
        }
        let container = WuiFixedContainer { widget };
        let Some(request) = container.place_children(&self.tree, width, height) else {
            return;
        };
        let axes = self.axes();
        let subviews = container.subviews(&self.tree);
        let bounds = engine::Rect::from_size(engine::Size::new(
            float(request.bounds.size.width),
            float(request.bounds.size.height),
        ));
        let placements: Vec<SubviewPlacement> = self.with_children(&axes, &subviews, |refs| {
            engine::with_memoized_children(refs, |refs| {
                let layout = &self.layouts[&widget];
                let _ = layout.size_that_fits(to_engine(request.proposal), refs);
                layout.place(bounds, to_engine(request.proposal), refs)
            })
            .iter()
            .map(|placement| SubviewPlacement {
                frame: Rect {
                    origin: Point {
                        x: single(placement.frame.x()),
                        y: single(placement.frame.y()),
                    },
                    size: Size {
                        width: single(placement.frame.width()),
                        height: single(placement.frame.height()),
                    },
                },
                proposal: from_engine(placement.proposal),
            })
            .collect()
        });
        let children: Vec<(usize, StretchAxis)> =
            subviews.iter().map(|view| (view.widget, view.stretch_axis)).collect();
        for allocation in apply_placements(&mut self.tree, &placements, &children) {
            self.allocate(
                allocation.widget,
                allocation.width,
                allocation.height,
                float(allocation.x),
                float(allocation.y),
            );
        }
    }

    fn selected(&self, container: WuiFixedContainer) -> Option<ProposalSize> {
        match &self.tree.widgets[container.widget].kind {
            WidgetKind::Container(state) => state.selected_proposal,
            _ => None,
        }
    }
}

/// Places every child at one frame under the proposal the test selects, and
/// records what it was asked.
#[derive(Debug)]
struct ProbeLayout {
    frame: f32,
    selected: Rc<Cell<engine::ProposalSize>>,
    placed: Rc<RefCell<Vec<engine::ProposalSize>>>,
    probed: Rc<RefCell<Vec<engine::ProposalSize>>>,
    guide: Option<(engine::VerticalAlignment, f32)>,
}

type Record = Rc<RefCell<Vec<engine::ProposalSize>>>;

impl ProbeLayout {
    fn new(frame: f32, selected: ProposalSize) -> (Self, Record) {
        let placed = Rc::new(RefCell::new(Vec::new()));
        (
            ProbeLayout {
                frame,
                selected: Rc::new(Cell::new(to_engine(selected))),
                placed: Rc::clone(&placed),
                probed: Rc::new(RefCell::new(Vec::new())),
                guide: None,
            },
            placed,
        )
    }
}

impl Layout for ProbeLayout {
    fn size_that_fits(&self, proposal: engine::ProposalSize, _: &[&dyn SubView]) -> engine::Size {
        self.probed.borrow_mut().push(proposal);
        engine::Size::new(self.frame, self.frame)
    }

    fn place(
        &self,
        _: engine::Rect,
        proposal: engine::ProposalSize,
        children: &[&dyn SubView],
    ) -> Vec<engine::SubviewPlacement> {
        self.placed.borrow_mut().push(proposal);
        let frame = engine::Rect::from_size(engine::Size::new(self.frame, self.frame));
        children
            .iter()
            .map(|_| engine::SubviewPlacement::new(frame, self.selected.get()))
            .collect()
    }

    fn explicit_vertical_alignments(&self) -> Vec<engine::VerticalAlignment> {
        self.guide.iter().map(|(alignment, _)| *alignment).collect()
    }

    fn explicit_vertical(
        &self,
        alignment: engine::VerticalAlignment,
        _: engine::Rect,
        _: &[PlacedSubview<'_>],
    ) -> Option<f32> {
        self.guide.filter(|(guide, _)| *guide == alignment).map(|(_, value)| value)
    }
}

/// A layout without children that owes a least length on both axes.
#[derive(Debug)]
struct GapLayout(f32);

impl Layout for GapLayout {
    fn size_that_fits(&self, _: engine::ProposalSize, _: &[&dyn SubView]) -> engine::Size {
        engine::Size::new(self.0, self.0)
    }

    fn place(
        &self,
        _: engine::Rect,
        _: engine::ProposalSize,
        _: &[&dyn SubView],
    ) -> Vec<engine::SubviewPlacement> {
        Vec::new()
    }
}

const UNSPECIFIED: (Option<f32>, Option<f32>) = (None, None);

fn unspecified() -> ProposalSize {
    proposal(UNSPECIFIED.0, UNSPECIFIED.1)
}

fn last(record: &Record) -> Option<ProposalSize> {
    record.borrow().last().copied().map(from_engine)
}

/// An empty container that claims the main axis.
fn gap_container(stage: &mut Stage, length: f32) -> WuiFixedContainer {
    let gap = stage.container(GapLayout(length), Vec::new());
    note_reported_axis(&mut stage.tree, gap.widget, StretchAxis::MainAxis);
    set_layout_priority(
        &mut stage.tree,
        gap.widget,
        waterui_layout::spacer::Spacer::DEFAULT_LAYOUT_PRIORITY,
    );
    gap
}

/// A flexible gap.
fn spacer(stage: &mut Stage, length: f32) -> usize {
    let gap = stage.tree.add_widget(WidgetKind::Plain);
    render_spacer(&mut stage.tree, gap, single(length));
    gap
}

/// A stack along `axis` around one child.
fn stack_of(stage: &mut Stage, axis: Orientation, child: usize) -> WuiFixedContainer {
    let children = vec![(child, StretchAxis::MainAxis)];
    let stack = WuiFixedContainer::new(&mut stage.tree, false, Some(axis), &children);
    let layout: Rc<dyn Layout> = match axis {
        Orientation::Horizontal => Rc::new(HStackLayout::default()),
        Orientation::Vertical => Rc::new(VStackLayout::default()),
    };
    stage.layouts.insert(stack.widget, layout);
    stack
}

/// The width and height that a child answers to an open question.
fn ideal(stage: &Stage, widget: usize) -> (f32, f32) {
    let size = stage.measure(widget, StretchAxis::MainAxis, unspecified()).size;
    (float(size.width), float(size.height))
}

#[test]
fn wrapping_label_reports_natural_width_under_height_proposal() {
    let mut stage = Stage::new();
    let label = stage.leaf(NativeLeaf::wrapping(8, 52));
    let dims = stage.measure(label, StretchAxis::Neither, proposal(Some(80.0), Some(80.0)));
    assert!(float(dims.size.width) > 30.0);
    assert_eq!(float(dims.size.width), 52.0);
}

#[test]
fn container_minimum_stays_below_natural_with_wrapping_text() {
    let mut stage = Stage::new();
    let label = stage.leaf(NativeLeaf::wrapping(30, 480));
    let container =
        stage.container(VStackLayout::default(), vec![(label, StretchAxis::Neither)]);
    let ((min_w, nat_w, min_baseline, nat_baseline), _) =
        stage.negotiate(container, Orientation::Horizontal, -1);
    assert!(nat_w > 200);
    assert!(min_w < nat_w);
    assert_eq!((min_w, nat_w, min_baseline, nat_baseline), (30, 480, -1, -1));
}

#[test]
fn selected_proposal_reaches_nested_container() {
    let mut stage = Stage::new();
    let chosen = proposal(Some(64.0), Some(48.0));
    let (inner_layout, inner_placed) = ProbeLayout::new(10.0, unspecified());
    let label = stage.label();
    let inner = stage.container(inner_layout, vec![label]);
    let (parent_layout, _) = ProbeLayout::new(40.0, chosen);
    let parent = stage.container(parent_layout, vec![(inner.widget, StretchAxis::Neither)]);

    stage.allocate(parent.widget, 200, 200, 0.0, 0.0);

    assert_eq!(stage.selected(inner), Some(chosen));
    assert_eq!(last(&inner_placed), Some(chosen));
}

#[test]
fn transparent_wrapper_forwards_selected_proposal() {
    let mut stage = Stage::new();
    let chosen = proposal(Some(96.0), Some(24.0));
    let (inner_layout, inner_placed) = ProbeLayout::new(10.0, unspecified());
    let label = stage.label();
    let inner = stage.container(inner_layout, vec![label]);
    let wrapper = stage.linear(Orientation::Vertical, 0);
    stage.tree.append(wrapper, inner.widget);
    forward_proposals_to_child(&mut stage.tree, wrapper, inner.widget);
    let (parent_layout, _) = ProbeLayout::new(40.0, chosen);
    let parent = stage.container(parent_layout, vec![(wrapper, StretchAxis::Neither)]);

    stage.allocate(parent.widget, 200, 200, 0.0, 0.0);

    assert_eq!(stage.selected(inner), Some(chosen));
    assert_eq!(last(&inner_placed), Some(chosen));
}

#[test]
fn measurement_probes_do_not_overwrite_selected_proposal() {
    let mut stage = Stage::new();
    let chosen = proposal(Some(64.0), Some(48.0));
    let (inner_layout, _) = ProbeLayout::new(10.0, chosen);
    let label = stage.label();
    let inner = stage.container(inner_layout, vec![label]);
    let (parent_layout, _) = ProbeLayout::new(40.0, chosen);
    let parent = stage.container(parent_layout, vec![(inner.widget, StretchAxis::Neither)]);
    stage.allocate(parent.widget, 200, 200, 0.0, 0.0);
    assert_eq!(stage.selected(inner), Some(chosen));

    for probe in [
        proposal(Some(0.0), Some(0.0)),
        unspecified(),
        proposal(Some(f32::INFINITY), Some(f32::INFINITY)),
    ] {
        let _ = stage.measure_container(&stage.axes(), inner.widget, probe);
        assert_eq!(stage.selected(inner), Some(chosen));
    }

    let label = stage.leaf(NativeLeaf::text(23));
    let dims = stage.measure(
        label,
        StretchAxis::Neither,
        proposal(Some(f32::INFINITY), Some(f32::INFINITY)),
    );
    assert!(dims.size.width.is_finite() && dims.size.height.is_finite());
    assert!(float(dims.size.width) > 0.0 && float(dims.size.height) > 0.0);
}

#[test]
fn equal_bounds_changed_proposal_still_relayouts() {
    let mut stage = Stage::new();
    let (inner_layout, inner_placed) = ProbeLayout::new(10.0, unspecified());
    let label = stage.label();
    let inner = stage.container(inner_layout, vec![label]);
    let first = proposal(Some(64.0), Some(48.0));
    let second = proposal(Some(120.0), Some(48.0));
    let (parent_layout, _) = ProbeLayout::new(40.0, first);
    let selected = Rc::clone(&parent_layout.selected);
    let parent = stage.container(parent_layout, vec![(inner.widget, StretchAxis::Neither)]);

    stage.allocate(parent.widget, 200, 200, 0.0, 0.0);
    assert_eq!(last(&inner_placed), Some(first));

    let axes = stage.axes();
    let _ = stage.measure_container(&axes, inner.widget, proposal(Some(0.0), Some(0.0)));
    let _ = stage.measure_container(
        &axes,
        inner.widget,
        proposal(Some(f32::INFINITY), Some(f32::INFINITY)),
    );
    assert_eq!(stage.selected(inner), Some(first));

    // The same packet again asks for nothing; another one does.
    deliver_proposal(&mut stage.tree, inner.widget, first);
    assert!(!stage.tree.widgets[inner.widget].allocate_queued);
    deliver_proposal(&mut stage.tree, inner.widget, second);
    assert!(stage.tree.widgets[inner.widget].allocate_queued);

    selected.set(to_engine(second));
    stage.allocate(parent.widget, 200, 200, 0.0, 0.0);
    assert_eq!(stage.selected(inner), Some(second));
    assert_eq!(last(&inner_placed), Some(second));
}

#[test]
fn spacer_reports_min_length_and_lowest_priority() {
    let mut stage = Stage::new();
    let gap = spacer(&mut stage, 10.0);
    assert_eq!(ideal(&stage, gap), (0.0, 0.0));
    let row = stack_of(&mut stage, Orientation::Horizontal, gap);
    assert_eq!(ideal(&stage, gap), (10.0, 0.0));
    let natural = stage.measure(row.widget, StretchAxis::Neither, unspecified()).size;
    assert_eq!((float(natural.width), float(natural.height)), (10.0, 0.0));
    let squeezed = proposal(Some(3.0), Some(3.0));
    let size = stage.measure(gap, StretchAxis::MainAxis, squeezed).size;
    assert_eq!((float(size.width), float(size.height)), (10.0, 0.0));

    let gap = spacer(&mut stage, 10.0);
    stack_of(&mut stage, Orientation::Vertical, gap);
    assert_eq!(ideal(&stage, gap), (0.0, 10.0));
    let subview = GtkSubView::new(gap, StretchAxis::MainAxis);
    assert_eq!(subview.priority(&stage.tree), i32::MIN);
    assert_eq!(subview.stretch_axis(&stage.tree, &stage.axes()), StretchAxis::MainAxis);
}

#[test]
fn dynamic_host_reports_live_child_traits_and_replays_proposal() {
    let mut stage = Stage::new();
    let host = render_dynamic(&mut stage.tree);
    let chosen = proposal(Some(64.0), Some(48.0));
    deliver_proposal(&mut stage.tree, host, chosen);

    let gap = spacer(&mut stage, 8.0);
    replace_child(&mut stage.tree, host, gap);
    assert_eq!(stage.tree.widgets[host].children, vec![gap]);
    assert_eq!(stage.axis(host), Some(StretchAxis::MainAxis));
    assert_eq!(query_priority(&stage.tree, host), Some(i32::MIN));
    assert_eq!(retained_proposal(&stage.tree, gap), None);
    assert!(stage.tree.widgets[host].resize_queued);

    let label = stage.label();
    let column = stage.container(VStackLayout::default(), vec![label]);
    stage.set_margins(column.widget, 2, 2, 0, 0);
    replace_child(&mut stage.tree, host, column.widget);
    assert_eq!(stage.selected(column), Some(proposal(Some(60.0), Some(48.0))));
    assert_eq!(stage.tree.widgets[gap].parent, None);

    let text = stage.leaf(NativeLeaf::text(30));
    replace_child(&mut stage.tree, host, text);
    assert_eq!(stage.axis(host), Some(StretchAxis::Neither));
    assert_eq!(query_priority(&stage.tree, host), Some(0));
    assert_eq!(stage.tree.widgets[column.widget].parent, None);
}

#[test]
fn a_host_without_a_packet_hands_none_on() {
    let mut stage = Stage::new();
    let host = render_dynamic(&mut stage.tree);
    let label = stage.label();
    let column = stage.container(VStackLayout::default(), vec![label]);
    replace_child(&mut stage.tree, host, column.widget);
    assert_eq!(stage.selected(column), None);
    assert_eq!(retained_proposal(&stage.tree, column.widget), None);
}

#[test]
fn scroll_offer_leaves_scrolling_axes_unspecified() {
    let offer = scroll_offer(false, true, single(320.0), single(240.0));
    assert_eq!(offer.width, Some(single(320.0)));
    assert_eq!(offer.height, None);
    let both = scroll_offer(true, true, single(320.0), single(240.0));
    assert_eq!((both.width, both.height), (None, None));
}

#[test]
fn scroll_axes_marker_reaches_wrapped_container() {
    let mut stage = Stage::new();
    let label = stage.label();
    let inner = stage.container(VStackLayout::default(), vec![label]);
    let wrapper = stage.linear(Orientation::Vertical, 0);
    stage.tree.append(wrapper, inner.widget);
    assert_eq!(scroll_axes_for(&stage.tree, inner.widget), None);
    set_scroll_axes(&mut stage.tree, wrapper, false, true);
    assert_eq!(scroll_axes_for(&stage.tree, inner.widget), Some((false, true)));
    set_scroll_axes(&mut stage.tree, inner.widget, true, false);
    assert_eq!(scroll_axes_for(&stage.tree, inner.widget), Some((true, false)));
}

#[test]
fn transparent_wrapper_preserves_raw_probe_and_guides() {
    let mut stage = Stage::new();
    let (mut inner_layout, _) = ProbeLayout::new(10.0, unspecified());
    inner_layout.guide = Some((engine::VerticalAlignment::Center, 12.0));
    let probed = Rc::clone(&inner_layout.probed);
    let label = stage.label();
    let inner = stage.container(inner_layout, vec![label]);
    stage.set_margins(inner.widget, 0, 0, 4, 4);
    let wrapper = stage.linear(Orientation::Vertical, 0);
    stage.tree.append(wrapper, inner.widget);
    transparent_to_content(&mut stage.tree, wrapper, inner.widget);
    assert!(measure_provider(&stage.tree, wrapper).is_some());

    let dimensions = stage.measure(
        wrapper,
        StretchAxis::Neither,
        proposal(Some(f32::INFINITY), Some(64.0)),
    );

    assert_eq!(last(&probed), Some(proposal(Some(f32::INFINITY), Some(56.0))));
    assert_eq!(
        dimensions.explicit_vertical(VerticalAlignment::Center),
        Some(single(16.0))
    );
    assert_eq!(dimensions.explicit_vertical(VerticalAlignment::Top), None);
    assert_eq!(dimensions.explicit_horizontal(HorizontalAlignment::Center), None);
    assert_eq!(float(dimensions.size.height), 18.0);
}

#[test]
fn transparent_wrapper_forwards_axis_and_priority() {
    let mut stage = Stage::new();
    let content = stage.tree.add_widget(WidgetKind::Plain);
    render_spacer(&mut stage.tree, content, single(8.0));
    assert_eq!(stage.axis(content), Some(StretchAxis::MainAxis));
    let wrapper = stage.linear(Orientation::Vertical, 0);
    stage.tree.append(wrapper, content);
    transparent_to_content(&mut stage.tree, wrapper, content);

    assert_eq!(stage.axis(wrapper), Some(StretchAxis::MainAxis));
    assert_eq!(query_priority(&stage.tree, wrapper), Some(i32::MIN));
    set_layout_priority(&mut stage.tree, wrapper, 7);
    assert_eq!(query_priority(&stage.tree, wrapper), Some(7));
}

#[test]
fn delivered_proposal_shrinks_by_child_margins() {
    let mut stage = Stage::new();
    let chosen = proposal(Some(100.0), Some(80.0));
    let (inner_layout, inner_placed) = ProbeLayout::new(10.0, unspecified());
    let label = stage.label();
    let inner = stage.container(inner_layout, vec![label]);
    stage.set_margins(inner.widget, 10, 10, 4, 4);
    let (parent_layout, _) = ProbeLayout::new(40.0, chosen);
    let parent = stage.container(parent_layout, vec![(inner.widget, StretchAxis::Neither)]);

    stage.allocate(parent.widget, 200, 200, 0.0, 0.0);

    assert_eq!(stage.allocated[&inner.widget], (10.0, 4.0, 20, 32));
    let expected = proposal(Some(80.0), Some(72.0));
    assert_eq!(stage.selected(inner), Some(expected));
    assert_eq!(last(&inner_placed), Some(expected));
}

#[test]
fn row_chrome_negotiates_the_content_slot() {
    let mut stage = Stage::new();
    let (inner_layout, _) = ProbeLayout::new(10.0, unspecified());
    let label = stage.label();
    let content = stage.container(inner_layout, vec![label]);
    let row = stage.linear(Orientation::Horizontal, 8);
    stage.set_margins(row, 12, 12, 8, 8);
    stage.tree.append(row, content.widget);
    let button = stage.tree.add_widget(WidgetKind::Plain);
    stage.tree.set_natural_size(button, NaturalSize { width: 34, height: 34 });
    stage.tree.append(row, button);
    forward_box_content_slot(&mut stage.tree, row, content.widget);

    deliver_proposal(&mut stage.tree, row, row_offer(Orientation::Vertical, single(400.0)));
    assert_eq!(
        stage.selected(content),
        Some(proposal(Some(400.0 - 24.0 - 8.0 - 34.0), None))
    );

    stage.tree.set_visible(button, false);
    reoffer_proposal(&mut stage.tree, row);
    assert_eq!(stage.selected(content), Some(proposal(Some(400.0 - 24.0), None)));
}

#[test]
fn scroll_marker_shapes_first_allocation_pass() {
    let mut stage = Stage::new();
    let (inner_layout, inner_placed) = ProbeLayout::new(10.0, unspecified());
    let label = stage.label();
    let inner = stage.container(inner_layout, vec![label]);
    let row = stage.linear(Orientation::Vertical, 0);
    stage.tree.append(row, inner.widget);
    set_scroll_axes(&mut stage.tree, row, false, true);

    stage.allocate(row, 200, 50, 0.0, 0.0);

    let last = last(&inner_placed);
    assert_eq!(last.map(|p| p.width), Some(Some(single(200.0))));
    assert_eq!(last.map(|p| p.height), Some(None));
}

#[test]
fn leaf_measurement_accounts_for_margins() {
    let mut stage = Stage::new();
    // The toolkit's extents hold the margins already.
    let leaf = NativeLeaf {
        min_width: 43,
        natural_width: 43,
        min_height: 25,
        line_height: 25,
        wraps: false,
        baseline: 17,
    };
    let label = stage.leaf(leaf);
    stage.set_margins(label, 10, 10, 4, 4);

    let generous =
        stage.measure(label, StretchAxis::Neither, proposal(Some(500.0), Some(500.0)));
    assert_eq!(float(generous.size.width), 43.0);
    assert_eq!(float(generous.size.height), 25.0);
    assert_eq!(
        generous.explicit_vertical(VerticalAlignment::FirstBaseline),
        Some(single(17.0))
    );

    let tight = stage.measure(label, StretchAxis::Neither, proposal(Some(30.0), Some(10.0)));
    assert_eq!(float(tight.size.width), 30.0_f32.min(43.0).max(43.0));
    assert_eq!(float(tight.size.height), 10.0_f32.min(25.0).max(25.0));
}

#[test]
fn dynamic_host_measures_the_live_child() {
    let mut stage = Stage::new();
    let host = render_dynamic(&mut stage.tree);
    let gap = spacer(&mut stage, 8.0);
    replace_child(&mut stage.tree, host, gap);
    let subview = GtkSubView::new(host, StretchAxis::Neither);
    assert_eq!(subview.stretch_axis(&stage.tree, &stage.axes()), StretchAxis::MainAxis);
    assert_eq!(ideal(&stage, host), (0.0, 0.0));
    stack_of(&mut stage, Orientation::Horizontal, host);
    assert_eq!(ideal(&stage, host), (8.0, 0.0));

    let text = stage.leaf(NativeLeaf::text(30));
    replace_child(&mut stage.tree, host, text);
    assert_eq!(ideal(&stage, host), (30.0, 17.0));
}

#[test]
fn lazy_stack_fills_scroll_hosted_column_cross_axis() {
    let mut stage = Stage::new();
    let plan = lazy_plan(LazyStackAxis::Vertical {
        spacing: single(0.0),
        alignment: HorizontalAlignment::Leading,
    });
    let list = render_lazy(&mut stage.tree, plan);
    stage.leaves.insert(list, NativeLeaf::text(23));
    assert_eq!(stage.axis(list), Some(StretchAxis::Horizontal));

    let layout = VStackLayout {
        alignment: engine::HorizontalAlignment::Leading,
        ..VStackLayout::default()
    };
    let column = stage.container(layout, vec![(list, StretchAxis::Neither)]);
    set_scroll_axes(&mut stage.tree, column.widget, false, true);
    stage.allocate(column.widget, 296, 480, 0.0, 0.0);
    assert_eq!(stage.allocated[&list].2, 296);
}

#[test]
fn list_row_delivers_slot_offer_before_children_allocate() {
    let mut stage = Stage::new();
    let label = stage.label();
    let content = stage.container(VStackLayout::default(), vec![label]);
    let row = WuiListRow::new(&mut stage.tree);
    stage.set_margins(row.widget, 12, 12, 0, 0);
    row.append(&mut stage.tree, content.widget);
    let button = stage.tree.add_widget(WidgetKind::Plain);
    stage.tree.set_natural_size(button, NaturalSize { width: 34, height: 34 });
    row.append(&mut stage.tree, button);
    forward_box_content_slot(&mut stage.tree, row.content_box, content.widget);

    // The toolkit takes the row's own margins off before it allocates the row.
    row.size_allocate(&mut stage.tree, 400 - 24);

    assert_eq!(
        retained_proposal(&stage.tree, content.widget),
        Some(proposal(Some(400.0 - 24.0 - 8.0 - 34.0), None))
    );

    row.show_delete_button(&mut stage.tree, button, false);
    assert_eq!(
        retained_proposal(&stage.tree, content.widget),
        Some(proposal(Some(400.0 - 24.0), None))
    );
}

/// A frame of a fixed size around one child, which it centers.
#[derive(Debug)]
struct FixedFrame(f32, f32);

impl Layout for FixedFrame {
    fn size_that_fits(&self, _: engine::ProposalSize, _: &[&dyn SubView]) -> engine::Size {
        engine::Size::new(self.0, self.1)
    }

    fn place(
        &self,
        bounds: engine::Rect,
        _: engine::ProposalSize,
        children: &[&dyn SubView],
    ) -> Vec<engine::SubviewPlacement> {
        let offer = engine::ProposalSize::new(Some(self.0), Some(self.1));
        children
            .iter()
            .map(|child| {
                let size = child.measure(offer).size;
                let origin = engine::Point::new(
                    bounds.x() + (bounds.width() - size.width) / 2.0,
                    bounds.y() + (bounds.height() - size.height) / 2.0,
                );
                engine::SubviewPlacement::new(engine::Rect::new(origin, size), offer)
            })
            .collect()
    }
}

#[test]
fn sized_picture_answers_the_proposal_and_centres_in_the_row() {
    let mut stage = Stage::new();
    // A drawing of 24 by 24 that may shrink to nothing.
    let drawing = NativeLeaf {
        min_width: 0,
        natural_width: 24,
        min_height: 0,
        line_height: 24,
        wraps: false,
        baseline: -1,
    };
    let icon = stage.leaf(drawing);
    let free = stage.measure(icon, StretchAxis::Neither, unspecified());
    assert_eq!((float(free.size.width), float(free.size.height)), (24.0, 24.0));
    let sized = stage.measure(icon, StretchAxis::Neither, proposal(Some(16.0), Some(16.0)));
    assert_eq!((float(sized.size.width), float(sized.size.height)), (16.0, 16.0));

    let picture = stage.leaf(drawing);
    let frame = stage.container(FixedFrame(16.0, 16.0), vec![(picture, StretchAxis::Neither)]);
    let text = stage.leaf(NativeLeaf::text(60));
    let row = stage.container(
        HStackLayout {
            alignment: engine::VerticalAlignment::Center,
            ..HStackLayout::default()
        },
        vec![(frame.widget, StretchAxis::Neither), (text, StretchAxis::Neither)],
    );
    stage.allocate(row.widget, 320, 64, 0.0, 0.0);
    let (frame_x, frame_y, ..) = stage.allocated[&frame.widget];
    let (x, y, width, height) = stage.allocated[&picture];
    assert_eq!((width, height), (16, 16));
    assert_eq!((frame_x + x, frame_y + y), (0.0, 24.0));
}

// ---------------------------------------------------------------------------

#[test]
fn questions_grow_linearly_with_depth() {
    let mut stage = Stage::new();
    let label = stage.label();
    let mut inner = stage.container(VStackLayout::default(), vec![label]);
    for _ in 0..12 {
        let label = stage.label();
        inner = stage.container(
            VStackLayout::default(),
            vec![(inner.widget, StretchAxis::Neither), label],
        );
    }
    let (_, asked) = stage.negotiate(inner, Orientation::Horizontal, 33);
    for (i, question) in asked.iter().enumerate() {
        assert!(!asked[..i].contains(question));
    }
    // At most three variants of two questions for each container and of one for
    // each label.
    assert!(asked.len() <= 13 * 3 * 2 + 13 * 3);
}

#[test]
fn empty_container_is_measured_by_its_layout() {
    let mut stage = Stage::new();
    let gap = stage.container(GapLayout(10.0), Vec::new());
    assert_eq!(
        stage.negotiate(gap, Orientation::Vertical, 5),
        (
            (10, 10, -1, -1),
            vec![
                MeasureQuestion::Natural {
                    key: MeasureKey {
                        widget: gap.widget,
                        orientation: Orientation::Vertical,
                        for_size: 5
                    }
                },
                MeasureQuestion::Floor {
                    key: MeasureKey {
                        widget: gap.widget,
                        orientation: Orientation::Vertical,
                        for_size: 5
                    }
                },
            ]
        )
    );
    assert_eq!(gap.place_children(&stage.tree, 100, 100), None);
}

#[test]
fn toolkit_questions_become_proposals() {
    assert_eq!(measure_proposal(Orientation::Horizontal, -1), unspecified());
    assert_eq!(measure_proposal(Orientation::Horizontal, 40), proposal(None, Some(40.0)));
    assert_eq!(measure_proposal(Orientation::Vertical, 40), proposal(Some(40.0), None));
    assert_eq!(measure_proposal(Orientation::Vertical, 0), proposal(Some(0.0), None));
}

#[test]
fn a_natural_root_works_under_its_bounds() {
    let mut stage = Stage::new();
    let label = stage.label();
    let root = stage.container(VStackLayout::default(), vec![label]);
    let request = root.place_children(&stage.tree, 320, -4).expect("it has a child");
    assert_eq!(request.proposal, proposal(Some(320.0), Some(0.0)));
    assert_eq!(request.bounds.size, Size { width: single(320.0), height: single(0.0) });
}

#[test]
fn children_can_be_replaced() {
    let mut stage = Stage::new();
    let (first, _) = stage.label();
    let (second, _) = stage.label();
    let (third, _) = stage.label();
    let container = stage.container(
        VStackLayout::default(),
        vec![(first, StretchAxis::Neither), (second, StretchAxis::Horizontal)],
    );
    let none = container.set_children(
        &mut stage.tree,
        &vec![(second, StretchAxis::Vertical), (third, StretchAxis::Both)],
        0,
        100,
    );
    assert_eq!(none, None);
    assert_eq!(stage.tree.widgets[container.widget].children, vec![second, third]);
    assert_eq!(stage.tree.widgets[first].parent, None);
    assert_eq!(stage.tree.widgets[second].parent, Some(container.widget));
    assert!(stage.tree.widgets[container.widget].resize_queued);
    let axes: Vec<StretchAxis> =
        container.subviews(&stage.tree).iter().map(|view| view.stretch_axis).collect();
    assert_eq!(axes, vec![StretchAxis::Vertical, StretchAxis::Both]);
    let again =
        container.set_children(&mut stage.tree, &vec![(first, StretchAxis::Neither)], 50, 60);
    assert_eq!(again.expect("it was allocated").proposal, proposal(Some(50.0), Some(60.0)));
}

#[test]
fn gaps_answer_along_the_stack_that_owns_them() {
    let mut stage = Stage::new();
    let gap = stage.tree.add_widget(WidgetKind::Plain);
    render_spacer(&mut stage.tree, gap, single(12.0));
    let size = |stage: &Stage| {
        let d = stage.measure(gap, StretchAxis::Neither, proposal(Some(3.0), None));
        (float(d.size.width), float(d.size.height))
    };
    assert_eq!(size(&stage), (0.0, 0.0));
    // A container that hands the claim on is climbed through.
    let padding = WuiFixedContainer::new(
        &mut stage.tree,
        true,
        None,
        &vec![(gap, StretchAxis::MainAxis)],
    );
    stage.layouts.insert(padding.widget, Rc::new(VStackLayout::default()));
    assert_eq!(size(&stage), (0.0, 0.0));
    let stack = WuiFixedContainer::new(
        &mut stage.tree,
        false,
        Some(Orientation::Horizontal),
        &vec![(padding.widget, StretchAxis::MainAxis)],
    );
    stage.layouts.insert(stack.widget, Rc::new(HStackLayout::default()));
    assert_eq!(size(&stage), (12.0, 0.0));
}

#[test]
fn live_axes_follow_the_children() {
    let mut stage = Stage::new();
    let gap = gap_container(&mut stage, 8.0);
    let axes = stage.axes();
    assert!(matches!(
        gap.live_stretch_axis(&stage.tree, &axes),
        LiveAxis::Recorded(StretchAxis::MainAxis)
    ));
    let label = stage.label();
    let host = render_dynamic(&mut stage.tree);
    let stack =
        stage.container(VStackLayout::default(), vec![label, (host, StretchAxis::Horizontal)]);
    let axes = stage.axes();
    match stack.live_stretch_axis(&stage.tree, &axes) {
        LiveAxis::Engine(claims) => {
            assert_eq!(claims, vec![StretchAxis::Neither, StretchAxis::Neither])
        }
        LiveAxis::Recorded(_) => panic!("the stack has children"),
    }
    replace_child(&mut stage.tree, host, gap.widget);
    let axes = stage.axes();
    match stack.live_stretch_axis(&stage.tree, &axes) {
        LiveAxis::Engine(claims) => {
            assert_eq!(claims, vec![StretchAxis::Neither, StretchAxis::MainAxis])
        }
        LiveAxis::Recorded(_) => panic!("the stack has children"),
    }
}

#[test]
fn memo_tells_containers_and_proposals_apart() {
    let mut memo = LayoutMeasureMemo::new();
    let size = |w: f32, h: f32| ViewDimensions::new(Size { width: single(w), height: single(h) });
    let mut guided = size(3.0, 4.0);
    guided.set_vertical(VerticalAlignment::Center, single(2.0));
    guided.set_horizontal(HorizontalAlignment::Leading, single(1.0));
    memo.record(1, proposal(Some(10.0), None), guided);
    memo.record(1, proposal(None, Some(10.0)), size(5.0, 6.0));
    memo.record(2, proposal(Some(10.0), None), size(7.0, 8.0));
    let found = memo.lookup(1, proposal(Some(10.0), None)).expect("it was recorded");
    assert_eq!(float(found.size.width), 3.0);
    assert_eq!(found.explicit_vertical(VerticalAlignment::Center), Some(single(2.0)));
    assert_eq!(found.explicit_horizontal(HorizontalAlignment::Leading), Some(single(1.0)));
    let other = memo.lookup(1, proposal(None, Some(10.0))).expect("it was recorded");
    assert_eq!(float(other.size.width), 5.0);
    assert_eq!(
        float(memo.lookup(2, proposal(Some(10.0), None)).expect("recorded").size.height),
        8.0
    );
    assert!(memo.lookup(1, proposal(Some(0.0), None)).is_none());
    assert!(memo.lookup(1, proposal(Some(-0.0), None)).is_none());
    assert!(memo.lookup(3, proposal(Some(10.0), None)).is_none());

    let mut stage = Stage::new();
    let label = stage.label();
    let container = stage.container(VStackLayout::default(), vec![label]);
    let ask = proposal(Some(99.0), None);
    assert!(matches!(
        container.layout_measure_shared(&stage.tree, ask, Some(&memo)),
        LayoutMeasure::Engine(_)
    ));
    memo.record(container.widget, ask, size(9.0, 9.0));
    assert!(matches!(
        container.layout_measure_shared(&stage.tree, ask, Some(&memo)),
        LayoutMeasure::Recorded(_)
    ));
}

#[test]
fn margins_leave_questions_alone() {
    let margin = single(20.0);
    assert_eq!(shrink_extent(None, margin), None);
    assert_eq!(
        shrink_extent(Some(single(f32::INFINITY)), margin),
        Some(single(f32::INFINITY))
    );
    assert_eq!(shrink_extent(Some(single(50.0)), margin), Some(single(30.0)));
    assert_eq!(shrink_extent(Some(single(5.0)), margin), Some(single(0.0)));
    assert!(proposals_equal(proposal(Some(1.0), None), proposal(Some(1.0), None)));
    assert!(!proposals_equal(proposal(Some(0.0), None), proposal(Some(-0.0), None)));
}

#[test]
fn deliveries_twice_are_deliveries_once() {
    let mut stage = Stage::new();
    let label = stage.label();
    let inner = stage.container(VStackLayout::default(), vec![label]);
    let row = stage.linear(Orientation::Horizontal, 6);
    stage.set_margins(row, 1, 2, 3, 4);
    stage.tree.append(row, inner.widget);
    let chrome = stage.tree.add_widget(WidgetKind::Plain);
    stage.tree.set_natural_size(chrome, NaturalSize { width: 30, height: -5 });
    stage.tree.append(row, chrome);
    forward_box_content_slot(&mut stage.tree, row, inner.widget);
    deliver_proposal(&mut stage.tree, row, proposal(Some(100.0), Some(50.0)));
    assert_eq!(stage.selected(inner), Some(proposal(Some(61.0), Some(43.0))));
    assert!(stage.tree.widgets[inner.widget].allocate_queued);
    stage.tree.widgets[inner.widget].allocate_queued = false;
    deliver_proposal(&mut stage.tree, row, proposal(Some(100.0), Some(50.0)));
    reoffer_proposal(&mut stage.tree, row);
    assert_eq!(stage.selected(inner), Some(proposal(Some(61.0), Some(43.0))));
    assert!(!stage.tree.widgets[inner.widget].allocate_queued);
    // Without a sink nothing happens.
    deliver_proposal(&mut stage.tree, chrome, proposal(Some(1.0), Some(1.0)));
    assert_eq!(retained_proposal(&stage.tree, chrome), None);
}

#[test]
fn stretching_leaves_take_the_offer() {
    let mut stage = Stage::new();
    let leaf = stage.leaf(NativeLeaf::text(40));
    let wide = stage.measure(leaf, StretchAxis::Horizontal, proposal(Some(90.0), Some(90.0)));
    assert_eq!((float(wide.size.width), float(wide.size.height)), (90.0, 17.0));
    let both = stage.measure(leaf, StretchAxis::Both, proposal(Some(90.0), Some(91.0)));
    assert_eq!((float(both.size.width), float(both.size.height)), (90.0, 91.0));
    let free = stage.measure(leaf, StretchAxis::Both, unspecified());
    assert_eq!((float(free.size.width), float(free.size.height)), (40.0, 17.0));
    assert_eq!(proposal_extent_to_for_size(Some(single(12.9))), 12);
    assert_eq!(proposal_extent_to_for_size(Some(single(f32::INFINITY))), -1);
    assert_eq!(proposal_extent_to_for_size(None), -1);
}

#[test]
fn lazy_rows_keep_the_gap_as_a_margin() {
    let mut stage = Stage::new();
    let (row, _) = stage.label();
    let plan = lazy_plan(LazyStackAxis::Horizontal {
        spacing: single(7.9),
        alignment: VerticalAlignment::FirstBaseline,
    });
    assert_eq!((plan.spacing, plan.cross_alignment), (7, Align::Center));
    assert_eq!(plan.fill_axis, StretchAxis::Vertical);
    bind_row(&mut stage.tree, row, plan);
    assert_eq!(stage.tree.widgets[row].margins.end, 7);
    assert_eq!(stage.tree.widgets[row].margins.bottom, 0);
    assert_eq!(scroll_axes_for(&stage.tree, row), Some((true, false)));

    let tight = lazy_plan(LazyStackAxis::Vertical {
        spacing: single(-3.0),
        alignment: HorizontalAlignment::Trailing,
    });
    assert_eq!((tight.spacing, tight.cross_alignment), (0, Align::End));
    let (other, _) = stage.label();
    bind_row(&mut stage.tree, other, tight);
    assert_eq!(stage.tree.widgets[other].margins.bottom, 0);
    assert_eq!(scroll_axes_for(&stage.tree, other), Some((false, true)));
    let spaced = lazy_plan(LazyStackAxis::Vertical {
        spacing: single(5.0),
        alignment: HorizontalAlignment::Center,
    });
    bind_row(&mut stage.tree, other, spaced);
    assert_eq!(stage.tree.widgets[other].margins.bottom, 5);

    assert!(row_matches(&vec![4, 9], 1, 9));
    assert!(!row_matches(&vec![4, 9], 1, 4));
    assert!(!row_matches(&vec![4, 9], 2, 9));
}

#[test]
fn list_rows_are_bound_with_their_margins() {
    let mut stage = Stage::new();
    let row = WuiListRow::new(&mut stage.tree);
    let (content, _) = stage.label();
    row.append(&mut stage.tree, content);
    row.bind(&mut stage.tree, content);
    assert_eq!(
        stage.tree.widgets[row.widget].margins,
        Margins { start: 12, end: 12, top: 8, bottom: 8 }
    );
    assert_eq!(scroll_axes_for(&stage.tree, content), Some((false, true)));
    assert!(shows_delete(true, true));
    assert!(!shows_delete(true, false));
    assert!(!shows_delete(false, true));
    assert_eq!(delete_button(true, true, true), Some(true));
    assert_eq!(delete_button(true, false, true), Some(false));
    assert_eq!(delete_button(false, true, true), None);
    assert_eq!(deleted_row(&vec![5, 7, 9], 1, 7), Some(1));
    assert_eq!(deleted_row(&vec![5, 7, 9], 1, 9), None);
    assert_eq!(deleted_row(&vec![5, 7, 9], 3, 9), None);
    assert_eq!(scroll_target(3, 4), Some(3));
    assert_eq!(scroll_target(4, 4), None);
    assert_eq!(scroll_target(0x1_0000_0000, 0x2_0000_0000), None);
}

#[test]
fn chrome_labels_stay_on_one_line() {
    let mut stage = Stage::new();
    let bar = stage.linear(Orientation::Horizontal, 0);
    let inner = stage.linear(Orientation::Horizontal, 0);
    let title = stage.leaf(NativeLeaf::wrapping(5, 50));
    let nested = stage.leaf(NativeLeaf::wrapping(5, 50));
    let outside = stage.leaf(NativeLeaf::wrapping(5, 50));
    stage.tree.append(bar, title);
    stage.tree.append(bar, inner);
    stage.tree.append(inner, nested);
    enforce_single_line_labels(&mut stage.tree, bar);
    let line = |stage: &Stage, widget: usize| match stage.tree.widgets[widget].kind {
        WidgetKind::Label { wrap, ellipsize } => (wrap, ellipsize),
        _ => panic!("it is a label"),
    };
    assert_eq!(line(&stage, title), (false, true));
    assert_eq!(line(&stage, nested), (false, true));
    assert_eq!(line(&stage, outside), (true, false));
}

#[test]
fn an_empty_dynamic_host_claims_nothing() {
    let mut stage = Stage::new();
    let host = render_dynamic(&mut stage.tree);
    stage.leaves.insert(host, NativeLeaf::text(0));
    assert_eq!(stage.axis(host), Some(StretchAxis::Neither));
    assert_eq!(query_priority(&stage.tree, host), Some(0));
    let other = stage.tree.add_widget(WidgetKind::Plain);
    assert!(!stage.tree.can_reach(host, other));
    assert!(stage.tree.can_reach(host, host));
    let size = stage.measure(host, StretchAxis::Neither, unspecified()).size;
    assert_eq!(float(size.width), 0.0);
}

#[test]
fn rows_that_stay_are_left_alone() {
    let splice = |current: &[i32], wanted: &[i32]| {
        let r: RowSplice = reconcile(&current.to_vec(), &wanted.to_vec());
        let mut rows = current.to_vec();
        let fresh = wanted[r.position..r.position + r.added].to_vec();
        rows.splice(r.position..r.position + r.removed, fresh);
        assert_eq!(rows, wanted);
        (r.position, r.removed, r.added)
    };
    assert_eq!(splice(&[], &[]), (0, 0, 0));
    assert_eq!(splice(&[1, 2, 3], &[1, 2, 3]), (3, 0, 0));
    assert_eq!(splice(&[1, 2, 3], &[1, 3]), (1, 1, 0));
    assert_eq!(splice(&[1, 3], &[1, 2, 3]), (1, 0, 1));
    assert_eq!(splice(&[1, 1], &[1]), (1, 1, 0));
    assert_eq!(splice(&[1, 2, 3, 4], &[1, 9, 8, 4]), (1, 2, 2));
    assert_eq!(splice(&[1, 2], &[3]), (0, 2, 1));
}

#[test]
fn negotiations_are_linear() {
    let mut stage = Stage::new();
    let mut inner = stage.label();
    for _ in 0..12 {
        let label = stage.label();
        let column = stage.container(VStackLayout::default(), vec![inner, label]);
        inner = (column.widget, StretchAxis::Neither);
    }
    let root = WuiFixedContainer { widget: inner.0 };
    for (orientation, for_size) in
        [(Orientation::Horizontal, -1), (Orientation::Vertical, 30), (Orientation::Vertical, -1)]
    {
        let (_, asked) = stage.negotiate(root, orientation, for_size);
        assert!(asked.len() <= 6 * stage.tree.widgets.len());
        for (i, question) in asked.iter().enumerate() {
            assert!(!asked[..i].contains(question));
        }
    }
}
