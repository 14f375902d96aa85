//! The plain values that widgets and the layout engine exchange.

use crate::single::Single;
use vstd::prelude::*;

verus! {

/// The axis, or axes, on which a view asks to fill the space it is offered.
#[derive(Clone, Copy, Debug, PartialEq, Eq, Structural)]
pub enum StretchAxis {
    /// The view keeps its intrinsic size.
    Neither,
    Horizontal,
    Vertical,
    Both,
    /// The main axis of the stack that holds the view.
    MainAxis,
    /// The cross axis of the stack that holds the view.
    CrossAxis,
}

impl StretchAxis {
    pub open spec fn fills_width(self) -> bool {
        self == StretchAxis::Horizontal || self == StretchAxis::Both
    }

    pub open spec fn fills_height(self) -> bool {
        self == StretchAxis::Vertical || self == StretchAxis::Both
    }

    pub fn stretches_horizontal(&self) -> (r: bool)
        ensures
            r == self.fills_width(),
    {
        *self == StretchAxis::Horizontal || *self == StretchAxis::Both
    }

    pub fn stretches_vertical(&self) -> (r: bool)
        ensures
            r == self.fills_height(),
    {
        *self == StretchAxis::Vertical || *self == StretchAxis::Both
    }
}

/// The direction in which a widget measures itself or lays its children out.
#[derive(Clone, Copy, Debug, PartialEq, Eq, Structural)]
pub enum Orientation {
    Horizontal,
    Vertical,
}

/// A position across the horizontal axis.
#[derive(Clone, Copy, Debug, PartialEq, Eq, Structural)]
pub enum HorizontalAlignment {
    Leading,
    Center,
    Trailing,
}

/// A position across the vertical axis.
#[derive(Clone, Copy, Debug, PartialEq, Eq, Structural)]
pub enum VerticalAlignment {
    Top,
    Center,
    Bottom,
    FirstBaseline,
    LastBaseline,
}

/// A place in points.
#[derive(Clone, Copy, Debug, PartialEq, Eq, Structural)]
pub struct Point {
    pub x: Single,
    pub y: Single,
}

/// An extent in points.
#[derive(Clone, Copy, Debug, PartialEq, Eq, Structural)]
pub struct Size {
    pub width: Single,
    pub height: Single,
}

/// A rectangle in its parent's coordinates.
#[derive(Clone, Copy, Debug, PartialEq, Eq, Structural)]
pub struct Rect {
    pub origin: Point,
    pub size: Size,
}

/// The size a parent offers: an absent extent asks for the ideal one, an
/// infinite extent for the largest.
#[derive(Clone, Copy, Debug, PartialEq, Eq, Structural)]
pub struct ProposalSize {
    pub width: Option<Single>,
    pub height: Option<Single>,
}

impl ProposalSize {
    pub fn new(width: Option<Single>, height: Option<Single>) -> (r: ProposalSize)
        ensures
            r == (ProposalSize { width, height }),
    {
        ProposalSize { width, height }
    }
}

/// A child's frame and the proposal selected to produce it.
#[derive(Clone, Copy, Debug, PartialEq, Eq, Structural)]
pub struct SubviewPlacement {
    pub frame: Rect,
    pub proposal: ProposalSize,
}

/// A measured size together with the alignment guides stated explicitly, in
/// the order they were stated: of two for one alignment the later one counts.
#[derive(Debug)]
pub struct ViewDimensions {
    pub size: Size,
    pub horizontal_guides: Vec<(HorizontalAlignment, Single)>,
    pub vertical_guides: Vec<(VerticalAlignment, Single)>,
}

/// What [`ViewDimensions`] stands for.
#[verifier::ext_equal]
pub struct DimensionsView {
    pub size: Size,
    pub horizontal_guides: Seq<(HorizontalAlignment, Single)>,
    pub vertical_guides: Seq<(VerticalAlignment, Single)>,
}

impl View for ViewDimensions {
    type V = DimensionsView;

    open spec fn view(&self) -> DimensionsView {
        DimensionsView {
            size: self.size,
            horizontal_guides: self.horizontal_guides@,
            vertical_guides: self.vertical_guides@,
        }
    }
}

impl DimensionsView {
    /// A size without explicit guides.
    pub open spec fn plain(size: Size) -> DimensionsView {
        DimensionsView { size, horizontal_guides: seq![], vertical_guides: seq![] }
    }
}

/// The last value that `guides` states for `alignment`.
pub open spec fn last_guide<A>(guides: Seq<(A, Single)>, alignment: A) -> Option<Single>
    decreases guides.len(),
{
    if guides.len() == 0 {
        None
    } else if guides.last().0 == alignment {
        Some(guides.last().1)
    } else {
        last_guide(guides.drop_last(), alignment)
    }
}

impl ViewDimensions {
    /// Dimensions of the given size, without explicit guides.
    pub fn new(size: Size) -> (r: ViewDimensions)
        ensures
            r@ == DimensionsView::plain(size),
    {
        ViewDimensions { size, horizontal_guides: Vec::new(), vertical_guides: Vec::new() }
    }

    /// The same dimensions once more.
    pub fn duplicate(&self) -> (r: ViewDimensions)
        ensures
            r@ == self@,
    {
        let mut r: ViewDimensions = ViewDimensions::new(self.size);
        let mut i: usize = 0;
        while i < self.horizontal_guides.len()
            invariant
                i <= self.horizontal_guides.len(),
                r@ == (DimensionsView {
                    size: self.size,
                    horizontal_guides: self.horizontal_guides@.take(i as int),
                    vertical_guides: seq![],
                }),
            decreases self.horizontal_guides.len() - i,
        {
            let (alignment, value) = self.horizontal_guides[i];
            r.set_horizontal(alignment, value);
            assert(self.horizontal_guides@.take(i + 1) =~= self.horizontal_guides@.take(
                i as int,
            ).push(self.horizontal_guides@[i as int]));
            i = i + 1;
        }
        assert(self.horizontal_guides@.take(i as int) =~= self.horizontal_guides@);
        let mut j: usize = 0;
        while j < self.vertical_guides.len()
            invariant
                j <= self.vertical_guides.len(),
                r@ == (DimensionsView {
                    vertical_guides: self.vertical_guides@.take(j as int),
                    ..self@
                }),
            decreases self.vertical_guides.len() - j,
        {
            let (alignment, value) = self.vertical_guides[j];
            r.set_vertical(alignment, value);
            assert(self.vertical_guides@.take(j + 1) =~= self.vertical_guides@.take(j as int).push(
                self.vertical_guides@[j as int],
            ));
            j = j + 1;
        }
        assert(self.vertical_guides@.take(j as int) =~= self.vertical_guides@);
        r
    }

    /// States a horizontal guide.
    pub fn set_horizontal(&mut self, alignment: HorizontalAlignment, value: Single)
        ensures
            final(self)@ == (DimensionsView {
                horizontal_guides: old(self)@.horizontal_guides.push((alignment, value)),
                ..old(self)@
            }),
    {
        self.horizontal_guides.push((alignment, value));
    }

    /// States a vertical guide.
    pub fn set_vertical(&mut self, alignment: VerticalAlignment, value: Single)
        ensures
            final(self)@ == (DimensionsView {
                vertical_guides: old(self)@.vertical_guides.push((alignment, value)),
                ..old(self)@
            }),
    {
        self.vertical_guides.push((alignment, value));
    }

    /// The vertical guide stated for `alignment`, if any.
    pub fn explicit_vertical(&self, alignment: VerticalAlignment) -> (r: Option<Single>)
        ensures
            r == last_guide(self@.vertical_guides, alignment),
    {
        let mut i: usize = self.vertical_guides.len();
        assert(self.vertical_guides@.take(i as int) =~= self.vertical_guides@);
        while i > 0
            invariant
                i <= self.vertical_guides.len(),
                last_guide(self.vertical_guides@.take(i as int), alignment) == last_guide(
                    self.vertical_guides@,
                    alignment,
                ),
            decreases i,
        {
            let (guide, value) = self.vertical_guides[i - 1];
            if guide == alignment {
                return Some(value);
            }
            assert(self.vertical_guides@.take(i as int).drop_last()
                =~= self.vertical_guides@.take(i - 1));
            i = i - 1;
        }
        None
    }

    /// The horizontal guide stated for `alignment`, if any.
    pub fn explicit_horizontal(&self, alignment: HorizontalAlignment) -> (r: Option<Single>)
        ensures
            r == last_guide(self@.horizontal_guides, alignment),
    {
        let mut i: usize = self.horizontal_guides.len();
        assert(self.horizontal_guides@.take(i as int) =~= self.horizontal_guides@);
        while i > 0
            invariant
                i <= self.horizontal_guides.len(),
                last_guide(self.horizontal_guides@.take(i as int), alignment) == last_guide(
                    self.horizontal_guides@,
                    alignment,
                ),
            decreases i,
        {
            let (guide, value) = self.horizontal_guides[i - 1];
            if guide == alignment {
                return Some(value);
            }
            assert(self.horizontal_guides@.take(i as int).drop_last()
                =~= self.horizontal_guides@.take(i - 1));
            i = i - 1;
        }
        None
    }
}

/// A view that fills both axes fills each, one that fills one axis does not fill
/// the other, and the claims that a stack resolves fill neither by themselves.
pub proof fn lemma_axes_filled(axis: StretchAxis)
    ensures
        axis.fills_width() && axis.fills_height() <==> axis is Both,
        axis.fills_width() && !axis.fills_height() <==> axis is Horizontal,
        !axis.fills_width() && axis.fills_height() <==> axis is Vertical,
{
}

/// The guide stated last for an alignment counts, and no guide counts for
/// another alignment.
pub proof fn lemma_last_guide_counts<A>(guides: Seq<(A, Single)>, alignment: A, value: Single, other: A)
    ensures
        last_guide(guides.push((alignment, value)), alignment) == Some(value),
        other != alignment ==> last_guide(guides.push((alignment, value)), other) == last_guide(
            guides,
            other,
        ),
        last_guide(Seq::<(A, Single)>::empty(), other) is None,
{
    assert(guides.push((alignment, value)).drop_last() =~= guides);
}

} // verus!
