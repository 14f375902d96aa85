//! A drawing that is rasterised at the size it is shown at.
//!
//! The last raster is kept, and serves every repaint of the same pixel size. A
//! change of the drawing drops it.

use crate::components::graphics::shared_gpu::PixelSize;
use crate::double::{
    lemma_double_rounded_is_nearest, lemma_double_small_wholes_multiply, Double,
};
use crate::geometry::Size;
use crate::single::{lemma_rounded_is_nearest, saturate_i32, Single};
use vstd::arithmetic::div_mod::lemma_div_pos_is_pos;
use vstd::arithmetic::power2::{lemma_pow2_pos, pow2};
use vstd::prelude::*;

verus! {

/// The pixels of the longest side that can be rasterised.
pub const LONGEST_SIDE: u32 = 65535;

/// A raster that is kept for the next repaint.
#[derive(Clone, Copy, Debug, PartialEq, Eq, Structural)]
pub struct Raster {
    /// The pixels that the drawing was rasterised at.
    pub pixel_size: PixelSize,
}

/// A drawing as the toolkit paints it.
#[derive(Clone, Copy, Debug, PartialEq, Eq, Structural)]
pub struct RecordingPaintable {
    /// The drawing's own size.
    pub size: Size,
    /// The scale factor that the widget is drawn at.
    pub scale: Double,
    /// The raster that is kept, if one is.
    pub raster: Option<Raster>,
}

/// What a snapshot does.
#[derive(Clone, Copy, Debug, PartialEq, Eq, Structural)]
pub struct RasterStep {
    pub size: PixelSize,
    /// The drawing has to be rasterised; otherwise the kept raster serves.
    pub fresh: bool,
}

/// The pixels that `points` come to at a scale: the nearest whole number, and
/// at least one.
pub open spec fn extent_pixels(points: Double, scale: Double) -> int {
    let product = Double::product(points, scale);
    if product.nan() || product.rounded() < 1 {
        1
    } else {
        product.rounded()
    }
}

/// A length in whole points.
pub open spec fn whole_points(length: Single) -> i32 {
    if length.nan() {
        0i32
    } else {
        saturate_i32(length.rounded())
    }
}

impl RecordingPaintable {
    /// The pixels of `points`, as far as they can be rasterised.
    pub open spec fn side(self, points: Double) -> int {
        extent_pixels(points, self.scale)
    }

    /// The drawing's own width and height in whole points.
    pub open spec fn intrinsic(self) -> (i32, i32) {
        (whole_points(self.size.width), whole_points(self.size.height))
    }

    /// The pixels of `points`, if they can be rasterised.
    pub open spec fn checked_side(self, points: Double) -> Option<u32> {
        if self.side(points) <= LONGEST_SIDE {
            Some(self.side(points) as u32)
        } else {
            None
        }
    }

    /// Whether a picture of `width` by `height` points can be rasterised.
    pub open spec fn drawable(self, width: Double, height: Double) -> bool {
        self.side(width) <= LONGEST_SIDE && self.side(height) <= LONGEST_SIDE
    }

    /// The pixels of a picture of `width` by `height` points.
    pub open spec fn pixel_size(self, width: Double, height: Double) -> PixelSize {
        PixelSize { width: self.side(width) as u32, height: self.side(height) as u32 }
    }

    /// Whether a snapshot has to rasterise the drawing.
    pub open spec fn stale(self, width: Double, height: Double) -> bool {
        self.raster != Some(Raster { pixel_size: self.pixel_size(width, height) })
    }

    /// The drawing once it was shown.
    pub open spec fn shown(self, width: Double, height: Double) -> RecordingPaintable {
        RecordingPaintable {
            raster: Some(Raster { pixel_size: self.pixel_size(width, height) }),
            ..self
        }
    }

    /// The drawing once it changed.
    pub open spec fn redrawn(self) -> RecordingPaintable {
        RecordingPaintable { raster: None, ..self }
    }

    /// The drawing once it is drawn at another scale.
    pub open spec fn rescaled(self, scale: Double) -> RecordingPaintable {
        RecordingPaintable { scale, ..self }
    }

    /// A drawing of the given size, not yet rasterised.
    pub fn new(size: Size, scale: Double) -> (r: RecordingPaintable)
        ensures
            r == (RecordingPaintable { size, scale, raster: None }),
    {
        RecordingPaintable { size, scale, raster: None }
    }

    /// The drawing's own width in whole points.
    pub fn intrinsic_width(&self) -> (r: i32)
        ensures
            r == self.intrinsic().0,
    {
        self.size.width.round_i32()
    }

    /// The drawing's own height in whole points.
    pub fn intrinsic_height(&self) -> (r: i32)
        ensures
            r == self.intrinsic().1,
    {
        self.size.height.round_i32()
    }

    /// The pixels of `points`; nothing where they are more than can be
    /// rasterised.
    pub fn checked_pixel_extent(&self, points: Double) -> (r: Option<u32>)
        ensures
            r == self.checked_side(points),
            r matches Some(side) ==> side >= 1,
    {
        let product: Double = points.times(self.scale);
        if product.is_nan() {
            return Some(1);
        }
        if product.is_negative() {
            proof {
                lemma_pow2_pos(1075);
                lemma_div_pos_is_pos(
                    (2 * product.units() + pow2(1074)) as int,
                    pow2(1075) as int,
                );
            }
            return Some(1);
        }
        let rounded: u64 = product.round_capped();
        if rounded < 1 {
            Some(1)
        } else if rounded <= 65535 {
            Some(rounded as u32)
        } else {
            None
        }
    }

    /// The pixels of `points`.
    pub fn pixel_extent(&self, points: Double) -> (r: u32)
        requires
            self.side(points) <= LONGEST_SIDE,
        ensures
            r == self.side(points),
            1 <= r <= LONGEST_SIDE,
    {
        match self.checked_pixel_extent(points) {
            Some(side) => side,
            None => 1,
        }
    }

    /// What a snapshot of `width` by `height` points does: a raster of exactly
    /// these pixels is reused, any other is replaced by a fresh one.
    pub fn snapshot(&mut self, width: Double, height: Double) -> (r: RasterStep)
        requires
            old(self).drawable(width, height),
        ensures
            r.size == old(self).pixel_size(width, height),
            r.fresh == old(self).stale(width, height),
            *final(self) == old(self).shown(width, height),
    {
        let size: PixelSize = PixelSize {
            width: self.pixel_extent(width),
            height: self.pixel_extent(height),
        };
        let fresh: bool = match self.raster {
            Some(kept) => kept.pixel_size != size,
            None => true,
        };
        if fresh {
            self.raster = Some(Raster { pixel_size: size });
        }
        RasterStep { size, fresh }
    }

    /// The drawing changed: the raster that is kept shows the old one.
    pub fn recording_changed(&mut self)
        ensures
            *final(self) == old(self).redrawn(),
    {
        self.raster = None;
    }

    /// The widget is drawn at another scale factor from now on.
    pub fn scale_changed(&mut self, scale: Double)
        ensures
            *final(self) == old(self).rescaled(scale),
    {
        self.scale = scale;
    }
}

/// A repaint at the same pixel size rasterises nothing, one at another size
/// always does, and so does the first after a change of the drawing.
pub proof fn lemma_rasters_follow_the_pixel_size(
    paintable: RecordingPaintable,
    width: Double,
    height: Double,
    other_width: Double,
    other_height: Double,
)
    ensures
        paintable.shown(width, height).stale(other_width, other_height) == (paintable.pixel_size(
            width,
            height,
        ) != paintable.pixel_size(other_width, other_height)),
        (RecordingPaintable { raster: None, ..paintable.shown(width, height) }).stale(
            other_width,
            other_height,
        ),
{
}

/// The pixels of a side are the whole number nearest to its points times the
/// scale, and at least one.
pub proof fn lemma_sides_are_nearest(points: Double, scale: Double)
    ensures
        ({
            let side = extent_pixels(points, scale);
            let product = Double::product(points, scale);
            &&& side >= 1
            &&& product.nan() || product.negative() ==> side == 1
            &&& !product.nan() && !product.negative() && side > 1 ==> (2 * side - 1) * pow2(1074)
                <= 2 * product.units() < (2 * side + 1) * pow2(1074)
            &&& !product.nan() && !product.negative() && side == 1 ==> 2 * product.units() < 3
                * pow2(1074)
        }),
{
    let product = Double::product(points, scale);
    let d = pow2(1074) as int;
    lemma_double_rounded_is_nearest(product);
    lemma_pow2_pos(1074);
    let r = product.rounded();
    if !product.negative() && r < 1 {
        assert((2 * r + 1) * d <= 3 * d) by (nonlinear_arith)
            requires
                r < 1,
                d > 0,
        ;
    }
}

/// A side of whole points at a whole scale has as many pixels as they multiply
/// to, and at least one.
pub proof fn lemma_whole_sides_multiply(points: int, scale: int)
    requires
        0 <= points < 0x100_0000,
        0 <= scale < 0x100_0000,
        points * scale < 0x100_0000,
    ensures
        points * scale >= 1 ==> extent_pixels(Double::of_int(points), Double::of_int(scale))
            == points * scale,
        points * scale < 1 ==> extent_pixels(Double::of_int(points), Double::of_int(scale)) == 1,
{
    lemma_double_small_wholes_multiply(points, scale);
    assert(points * scale >= 0) by (nonlinear_arith)
        requires
            points >= 0,
            scale >= 0,
    ;
    let n = points * scale;
    crate::double::lemma_double_small_whole_is_exact(n);
    let product = Double::of_int(n);
    lemma_double_rounded_is_nearest(product);
    lemma_pow2_pos(1074);
    let d = pow2(1074) as int;
    let r = product.rounded();
    assert(r == n) by (nonlinear_arith)
        requires
            (2 * r - 1) * d <= 2 * (n * d) < (2 * r + 1) * d,
            d > 0,
    ;
}

/// A picture's pixels come from its points, width from width and height from
/// height, at the scale of the moment; and its kept raster serves exactly those.
pub proof fn lemma_picture_sides_are_apart(
    paintable: RecordingPaintable,
    width: Double,
    height: Double,
)
    requires
        paintable.drawable(width, height),
    ensures
        paintable.pixel_size(width, height).width == extent_pixels(width, paintable.scale),
        paintable.pixel_size(width, height).height == extent_pixels(height, paintable.scale),
        !paintable.stale(width, height) <==> (paintable.raster matches Some(kept)
            && kept.pixel_size.width == extent_pixels(width, paintable.scale)
            && kept.pixel_size.height == extent_pixels(height, paintable.scale)),
        (RecordingPaintable { raster: paintable.raster, ..paintable.shown(width, height) })
            == paintable,
{
    lemma_sides_are_nearest(width, paintable.scale);
    lemma_sides_are_nearest(height, paintable.scale);
}

/// A length in whole points is the nearest one; what is no length is none.
pub proof fn lemma_points_are_nearest(length: Single)
    ensures
        length.nan() ==> whole_points(length) == 0,
        !length.nan() && !length.negative() ==> whole_points(length) >= 0,
        !length.nan() && !length.negative() && whole_points(length) < i32::MAX ==> (2
            * whole_points(length) - 1) * pow2(149) <= 2 * length.value() < (2 * whole_points(
            length,
        ) + 1) * pow2(149),
        !length.nan() && whole_points(length) == i32::MAX ==> (2 * i32::MAX - 1) * pow2(149) <= 2
            * length.value(),
        !length.nan() && whole_points(length) == i32::MIN ==> 2 * length.value() <= (2 * i32::MIN
            + 1) * pow2(149),
        !length.nan() && length.negative() && whole_points(length) > i32::MIN ==> (-2
            * whole_points(length) - 1) * pow2(149) <= -2 * length.value() < (-2 * whole_points(
            length,
        ) + 1) * pow2(149),
{
    lemma_rounded_is_nearest(length);
    lemma_rounded_is_nearest(length.negated());
    assert(length.negated().magnitude() == length.magnitude());
    lemma_pow2_pos(149);
    let d = pow2(149) as int;
    let r = length.rounded();
    assert((r >= i32::MAX ==> (2 * r - 1) * d >= (2 * i32::MAX - 1) * d) && (r <= i32::MIN ==> (-2
        * r - 1) * d >= (-2 * i32::MIN - 1) * d)) by (nonlinear_arith)
        requires
            d > 0,
    ;
    assert((-2 * i32::MIN - 1) * d == -((2 * i32::MIN + 1) * d)) by (nonlinear_arith);
}

/// A change of the drawing always leads to a new raster; a change of the scale
/// does if and only if it changes the pixels, and the drawing's own size is the
/// same after either.
pub proof fn lemma_changes_lead_to_a_raster(
    paintable: RecordingPaintable,
    scale: Double,
    width: Double,
    height: Double,
)
    ensures
        paintable.redrawn().stale(width, height),
        paintable.redrawn().scale == paintable.scale,
        paintable.redrawn().size == paintable.size,
        paintable.rescaled(scale).size == paintable.size,
        paintable.rescaled(scale).scale == scale,
        paintable.shown(width, height).rescaled(scale).stale(width, height) <==> (
        paintable.pixel_size(width, height) != paintable.rescaled(scale).pixel_size(width, height)),
{
}

/// A drawing reports the whole points nearest to its own width and height, each
/// as what it is.
pub proof fn lemma_drawing_reports_its_size(paintable: RecordingPaintable)
    ensures
        ({
            let (width, height) = paintable.intrinsic();
            let size = paintable.size;
            &&& !size.width.nan() && !size.width.negative() && width < i32::MAX ==> (2 * width - 1)
                * pow2(149) <= 2 * size.width.value() < (2 * width + 1) * pow2(149)
            &&& !size.height.nan() && !size.height.negative() && height < i32::MAX ==> (2 * height
                - 1) * pow2(149) <= 2 * size.height.value() < (2 * height + 1) * pow2(149)
            &&& !size.width.nan() && width == i32::MAX ==> (2 * i32::MAX - 1) * pow2(149) <= 2
                * size.width.value()
            &&& !size.height.nan() && height == i32::MAX ==> (2 * i32::MAX - 1) * pow2(149) <= 2
                * size.height.value()
            &&& size.width.nan() ==> width == 0
            &&& size.height.nan() ==> height == 0
        }),
{
    lemma_points_are_nearest(paintable.size.width);
    lemma_points_are_nearest(paintable.size.height);
}

/// A side can be rasterised if and only if it has no more pixels than the
/// longest one, and then has just its pixels; a picture can if both its sides
/// can.
pub proof fn lemma_long_sides_are_refused(
    paintable: RecordingPaintable,
    width: Double,
    height: Double,
)
    ensures
        paintable.checked_side(width) is None <==> extent_pixels(width, paintable.scale) > 65535,
        paintable.checked_side(width) matches Some(side) ==> side == extent_pixels(
            width,
            paintable.scale,
        ) && side >= 1,
        paintable.drawable(width, height) <==> paintable.checked_side(width) is Some
            && paintable.checked_side(height) is Some,
{
    lemma_sides_are_nearest(width, paintable.scale);
    lemma_sides_are_nearest(height, paintable.scale);
}

} // verus!
