//! The life of a widget that a GPU view draws: its bring-up, its frames and
//! the input it passes on.
//!
//! The view is set up once on the shared runtime. Each frame is rendered into
//! an offscreen target and read back; the next one waits for the readback.
//! Work that was under way when the widget was torn down finds another
//! generation when it ends, and its result is dropped.

use crate::components::graphics::shared_gpu::{lemma_widgets_scale, PixelSize};
use crate::double::Double;
use crate::geometry::{Point, Size, StretchAxis};
use crate::double::{lemma_double_small_whole_is_exact, lemma_narrowing_keeps_the_extremes};
use crate::rounding::round_units;
use crate::single::{
    lemma_ceiling_holds_the_number, lemma_constants, lemma_half_of_whole,
    lemma_of_units_keeps_the_sign, lemma_small_whole_is_exact, lemma_small_wholes_add,
    lemma_small_wholes_multiply, lemma_value_and_sign_tell_numbers_apart, saturate_i32, Single, HALF,
    ONE, ZERO,
};
use vstd::arithmetic::power2::{lemma_pow2_pos, pow2};
use vstd::prelude::*;

verus! {

/// The nanoseconds by which the first frame follows the one before it: a
/// sixtieth of a second in single precision.
pub const FIRST_FRAME_DELTA: u64 = 16_666_668;

/// The pointer over a surface, in its pixels.
#[derive(Clone, Copy, Debug, PartialEq, Eq, Structural)]
pub struct PointerState {
    /// Where the pointer is, if it is over the surface.
    pub position: Option<Point>,
    /// Where the press under way started.
    pub hit: Option<Point>,
}

/// The gesture on a surface, in its pixels.
#[derive(Clone, Copy, Debug, PartialEq, Eq, Structural)]
pub struct GestureState {
    pub pinch_scale: Single,
    pub pinch_center: Option<Point>,
    pub pan_offset: Point,
    pub double_tap: bool,
    pub active: bool,
}

/// The state of a surface. Times are nanoseconds from some fixed moment.
#[derive(Clone, Copy, Debug, PartialEq, Eq, Structural)]
pub struct GpuState {
    /// The view is here, and not with a setup under way.
    pub surface_present: bool,
    pub runtime_present: bool,
    /// The size of the render target, once there is one.
    pub target: Option<PixelSize>,
    /// Raised when the widget is torn down.
    pub generation: u64,
    pub setup_in_progress: bool,
    pub setup_done: bool,
    /// A readback is under way, and the next frame waits for it.
    pub readback_in_flight: bool,
    /// The view asked for another frame while it rendered.
    pub view_wants_frame: bool,
    /// The allocation changed since the target was made.
    pub size_dirty: bool,
    pub pointer: PointerState,
    pub gesture: GestureState,
    pub pan_active: bool,
    pub last_pinch_update: Option<u64>,
    pub start_time: u64,
    pub last_frame_time: u64,
}

/// What the bring-up needs next.
#[derive(Clone, Copy, Debug, PartialEq, Eq, Structural)]
pub enum SetupStep {
    /// Nothing: it is under way, over, or has nothing to set up.
    Done,
    /// The shared runtime.
    NeedRuntime,
    /// The view's own setup, which takes the view along. Its result is for
    /// this generation.
    NeedSetup { generation: u64 },
}

/// What a tick has to do.
#[derive(Clone, Copy, Debug, PartialEq, Eq, Structural)]
pub enum FrameWork {
    Idle,
    Setup,
    Render { size: PixelSize },
}

/// What the view renders a frame with.
#[derive(Clone, Copy, Debug, PartialEq, Eq, Structural)]
pub struct FrameStart {
    /// The target has to be made anew before the view renders.
    pub new_target: bool,
    pub pointer: PointerState,
    pub gesture: GestureState,
    /// Nanoseconds since the surface was made.
    pub elapsed: u64,
    /// Nanoseconds since the frame before.
    pub delta: u64,
}

/// What becomes of a readback.
#[derive(Clone, Copy, Debug, PartialEq, Eq, Structural)]
pub enum Presentation {
    /// The widget was torn down meanwhile; nothing is shown.
    Discard,
    /// The pixels are shown.
    Present,
    /// There are no pixels; the frame shown last stays.
    KeepLast,
}

/// `a - b`, and not below zero.
pub open spec fn since(a: u64, b: u64) -> u64 {
    if a < b {
        0
    } else {
        (a - b) as u64
    }
}

impl GpuState {
    /// What every state of a surface satisfies: the view is away while it is
    /// set up, and only then; a surface that is set up has all it needs, and
    /// only such a one reads back.
    pub open spec fn wf(self) -> bool {
        &&& self.surface_present == !self.setup_in_progress
        &&& self.setup_in_progress ==> !self.setup_done && self.runtime_present
        &&& self.setup_done ==> self.runtime_present
        &&& self.readback_in_flight ==> self.setup_done && self.target is Some
    }

    /// The state of a new surface.
    pub open spec fn initial(now: u64) -> GpuState {
        GpuState {
            surface_present: true,
            runtime_present: false,
            target: None,
            generation: 0,
            setup_in_progress: false,
            setup_done: false,
            readback_in_flight: false,
            view_wants_frame: true,
            size_dirty: true,
            pointer: PointerState { position: None, hit: None },
            gesture: GestureState {
                pinch_scale: Single { bits: ZERO },
                pinch_center: None,
                pan_offset: Point { x: Single { bits: ZERO }, y: Single { bits: ZERO } },
                double_tap: false,
                active: false,
            },
            pan_active: false,
            last_pinch_update: None,
            start_time: now,
            last_frame_time: (now - FIRST_FRAME_DELTA) as u64,
        }
    }

    /// What the bring-up needs next.
    pub open spec fn setup_step(self) -> SetupStep {
        if self.setup_done || self.setup_in_progress {
            SetupStep::Done
        } else if !self.runtime_present {
            SetupStep::NeedRuntime
        } else if self.surface_present {
            SetupStep::NeedSetup { generation: self.generation }
        } else {
            SetupStep::Done
        }
    }

    /// The state once the bring-up was asked for its next step: a setup takes
    /// the view along.
    pub open spec fn setting_up(self) -> GpuState {
        if self.setup_step() is NeedSetup {
            GpuState { surface_present: false, setup_in_progress: true, ..self }
        } else {
            self
        }
    }

    pub open spec fn with_runtime(self) -> GpuState {
        GpuState { runtime_present: true, ..self }
    }

    /// The state once a setup started under `generation` ended. The view comes
    /// back in any case; after a teardown meanwhile it is set up once more.
    pub open spec fn set_up(self, generation: u64) -> GpuState {
        if self.generation != generation {
            GpuState { setup_in_progress: false, surface_present: true, ..self }
        } else {
            GpuState {
                setup_in_progress: false,
                surface_present: true,
                setup_done: true,
                view_wants_frame: true,
                ..self
            }
        }
    }

    /// Whether a frame is due: the first, one the view or anyone else asked
    /// for, or one at a new size.
    pub open spec fn wants_frame(self, redraw_dirty: bool) -> bool {
        self.view_wants_frame || self.size_dirty || redraw_dirty
    }

    /// What a tick has to do, at this size of the widget.
    pub open spec fn work(self, redraw_dirty: bool, size: PixelSize) -> FrameWork {
        if !self.setup_done || self.readback_in_flight {
            FrameWork::Idle
        } else if !self.runtime_present || !self.surface_present {
            FrameWork::Setup
        } else if self.wants_frame(redraw_dirty) {
            FrameWork::Render { size }
        } else {
            FrameWork::Idle
        }
    }

    /// What a tick has to do for a widget of this geometry.
    pub open spec fn pumped(
        self,
        redraw_dirty: bool,
        scale_factor: i32,
        width: i32,
        height: i32,
    ) -> FrameWork {
        self.work(redraw_dirty, PixelSize::of_widget(scale_factor, width, height))
    }

    /// Whether work that started under `generation` counts.
    pub open spec fn counts(self, generation: u64) -> bool {
        self.generation == generation
    }

    /// What a frame of `size` at the moment `now` is rendered with.
    pub open spec fn frame(self, size: PixelSize, now: u64) -> FrameStart {
        FrameStart {
            new_target: self.target != Some(size),
            pointer: self.pointer,
            gesture: self.gesture,
            elapsed: since(now, self.start_time),
            delta: since(now, self.last_frame_time),
        }
    }

    pub open spec fn starting_frame(self, size: PixelSize, now: u64) -> GpuState {
        GpuState { target: Some(size), last_frame_time: now, ..self }
    }

    /// The state once the view rendered, and the readback is under way.
    pub open spec fn rendered(self, redraw_requested: bool) -> GpuState {
        GpuState {
            view_wants_frame: redraw_requested,
            size_dirty: false,
            readback_in_flight: true,
            ..self
        }
    }

    pub open spec fn read_back(self) -> GpuState {
        GpuState { readback_in_flight: false, ..self }
    }

    /// What becomes of a readback that started under `generation`.
    pub open spec fn presentation(self, generation: u64, pixels: bool) -> Presentation {
        if self.generation != generation {
            Presentation::Discard
        } else if pixels {
            Presentation::Present
        } else {
            Presentation::KeepLast
        }
    }

    pub open spec fn resized(self) -> GpuState {
        GpuState { size_dirty: true, ..self }
    }

    pub open spec fn unrealized(self) -> GpuState {
        GpuState {
            generation: (self.generation + 1) as u64,
            view_wants_frame: true,
            size_dirty: true,
            ..self
        }
    }

    /// A new surface, made at the moment `now`.
    pub fn new(now: u64) -> (r: GpuState)
        requires
            now >= FIRST_FRAME_DELTA,
        ensures
            r == GpuState::initial(now),
            r.wf(),
    {
        let zero: Single = Single { bits: ZERO };
        GpuState {
            surface_present: true,
            runtime_present: false,
            target: None,
            generation: 0,
            setup_in_progress: false,
            setup_done: false,
            readback_in_flight: false,
            view_wants_frame: true,
            size_dirty: true,
            pointer: PointerState { position: None, hit: None },
            gesture: GestureState {
                pinch_scale: zero,
                pinch_center: None,
                pan_offset: Point { x: zero, y: zero },
                double_tap: false,
                active: false,
            },
            pan_active: false,
            last_pinch_update: None,
            start_time: now,
            last_frame_time: now - FIRST_FRAME_DELTA,
        }
    }

    /// Whether a frame is due. `redraw_dirty` says whether someone outside the
    /// view asked for one.
    pub fn needs_frame(&self, redraw_dirty: bool) -> (r: bool)
        ensures
            r == self.wants_frame(redraw_dirty),
    {
        self.view_wants_frame || self.size_dirty || redraw_dirty
    }

    /// Takes the next step of the bring-up: the runtime first, then the view's
    /// setup, each asked for once.
    pub fn ensure_setup(&mut self) -> (r: SetupStep)
        requires
            old(self).wf(),
        ensures
            final(self).wf(),
            *final(self) == old(self).setting_up(),
            r == old(self).setup_step(),
    {
        if self.setup_done || self.setup_in_progress {
            SetupStep::Done
        } else if self.runtime_present {
            if self.surface_present {
                self.surface_present = false;
                self.setup_in_progress = true;
                SetupStep::NeedSetup { generation: self.generation }
            } else {
                SetupStep::Done
            }
        } else {
            SetupStep::NeedRuntime
        }
    }

    /// The shared runtime came up; the bring-up goes on.
    pub fn runtime_ready(&mut self) -> (r: SetupStep)
        requires
            old(self).wf(),
        ensures
            final(self).wf(),
            *final(self) == old(self).with_runtime().setting_up(),
            r == old(self).with_runtime().setup_step(),
    {
        self.runtime_present = true;
        self.ensure_setup()
    }

    /// The setup that started under `generation` ended, and gives the view
    /// back. Tells whether the setup counts, and a redraw is due; one that the
    /// widget was torn down under is run again.
    pub fn setup_finished(&mut self, generation: u64) -> (r: bool)
        requires
            old(self).wf(),
            old(self).setup_in_progress,
        ensures
            final(self).wf(),
            *final(self) == old(self).set_up(generation),
            r == old(self).counts(generation),
    {
        self.setup_in_progress = false;
        self.surface_present = true;
        if self.generation != generation {
            return false;
        }
        self.setup_done = true;
        self.view_wants_frame = true;
        true
    }

    /// What a tick has to do for a widget of this geometry.
    pub fn pump_frame(&self, redraw_dirty: bool, scale_factor: i32, width: i32, height: i32) -> (r:
        FrameWork)
        ensures
            r == self.pumped(redraw_dirty, scale_factor, width, height),
    {
        if !self.setup_done || self.readback_in_flight {
            FrameWork::Idle
        } else if !self.runtime_present || !self.surface_present {
            FrameWork::Setup
        } else if self.needs_frame(redraw_dirty) {
            FrameWork::Render { size: PixelSize::from_widget(scale_factor, width, height) }
        } else {
            FrameWork::Idle
        }
    }

    /// A frame of `size` starts at the moment `now`.
    pub fn begin_frame(&mut self, size: PixelSize, now: u64) -> (r: FrameStart)
        requires
            old(self).wf(),
        ensures
            final(self).wf(),
            *final(self) == old(self).starting_frame(size, now),
            r == old(self).frame(size, now),
    {
        let new_target: bool = match self.target {
            Some(current) => current != size,
            None => true,
        };
        let start: FrameStart = FrameStart {
            new_target,
            pointer: self.pointer,
            gesture: self.gesture,
            elapsed: if now < self.start_time { 0 } else { now - self.start_time },
            delta: if now < self.last_frame_time { 0 } else { now - self.last_frame_time },
        };
        self.target = Some(size);
        self.last_frame_time = now;
        start
    }

    /// The view rendered, and its pixels are to be read back under the
    /// generation given. `redraw_requested` says whether the view asked for
    /// another frame.
    pub fn frame_rendered(&mut self, redraw_requested: bool) -> (r: u64)
        requires
            old(self).wf(),
            old(self).setup_done,
            old(self).target is Some,
        ensures
            final(self).wf(),
            *final(self) == old(self).rendered(redraw_requested),
            r == old(self).generation,
            old(self).counts(r) && final(self).counts(r),
    {
        self.view_wants_frame = redraw_requested;
        self.size_dirty = false;
        self.readback_in_flight = true;
        self.generation
    }

    /// The readback that started under `generation` ended, with pixels or not.
    pub fn readback_finished(&mut self, generation: u64, pixels: bool) -> (r: Presentation)
        requires
            old(self).wf(),
        ensures
            final(self).wf(),
            *final(self) == old(self).read_back(),
            r == old(self).presentation(generation, pixels),
    {
        self.readback_in_flight = false;
        if self.generation != generation {
            Presentation::Discard
        } else if pixels {
            Presentation::Present
        } else {
            Presentation::KeepLast
        }
    }

    /// The widget was given another size.
    pub fn resize(&mut self)
        ensures
            *final(self) == old(self).resized(),
            old(self).wf() ==> final(self).wf(),
    {
        self.size_dirty = true;
    }

    /// The widget was torn down. What is set up stays; what is under way will
    /// find another generation.
    pub fn unrealize(&mut self)
        requires
            old(self).generation < u64::MAX,
        ensures
            *final(self) == old(self).unrealized(),
            old(self).wf() ==> final(self).wf(),
    {
        self.generation = self.generation + 1;
        self.view_wants_frame = true;
        self.size_dirty = true;
    }

    /// Whether an input event reaches the view; while a setup has it, events
    /// are dropped.
    pub fn routes_input(&self) -> (r: bool)
        ensures
            r == self.surface_present,
    {
        self.surface_present
    }
}

/// What can happen to a surface between its making and its end.
pub enum GpuEvent {
    EnsureSetup,
    RuntimeReady,
    SetupFinished { generation: u64 },
    BeginFrame { size: PixelSize, now: u64 },
    FrameRendered { redraw_requested: bool },
    ReadbackFinished,
    Resize,
    Unrealize,
    PointerMoved { x: Double, y: Double, scale_factor: i32 },
    PointerLeft,
    Pressed { x: Double, y: Double, scale_factor: i32 },
    Released { presses: i32 },
    DragBegin,
    DragUpdate { offset_x: Double, offset_y: Double, scale_factor: i32 },
    DragEnd,
    Pinch { scale: Double, area: Option<PointBox>, scale_factor: i32, now: u64 },
}

/// A surface after one event. What cannot occur in a state counts as nothing.
pub open spec fn surface_step(state: GpuState, event: GpuEvent) -> GpuState {
    match event {
        GpuEvent::EnsureSetup => state.setting_up(),
        GpuEvent::RuntimeReady => state.with_runtime().setting_up(),
        GpuEvent::SetupFinished { generation } => if state.setup_in_progress {
            state.set_up(generation)
        } else {
            state
        },
        GpuEvent::BeginFrame { size, now } => state.starting_frame(size, now),
        GpuEvent::FrameRendered { redraw_requested } => if state.setup_done
            && state.target is Some {
            state.rendered(redraw_requested)
        } else {
            state
        },
        GpuEvent::ReadbackFinished => state.read_back(),
        GpuEvent::Resize => state.resized(),
        GpuEvent::Unrealize => if state.generation < u64::MAX {
            state.unrealized()
        } else {
            state
        },
        GpuEvent::PointerMoved { x, y, scale_factor } => state.moved(x, y, scale_factor),
        GpuEvent::PointerLeft => state.left(),
        GpuEvent::Pressed { x, y, scale_factor } => state.struck(x, y, scale_factor),
        GpuEvent::Released { presses } => state.lifted(presses),
        GpuEvent::DragBegin => state.dragging(),
        GpuEvent::DragUpdate { offset_x, offset_y, scale_factor } => state.dragged(
            offset_x,
            offset_y,
            scale_factor,
        ),
        GpuEvent::DragEnd => state.dropped(),
        GpuEvent::Pinch { scale, area, scale_factor, now } => state.pinched(
            scale,
            area,
            scale_factor,
            now,
        ),
    }
}

/// A surface after a sequence of events.
pub open spec fn surface_after(state: GpuState, events: Seq<GpuEvent>) -> GpuState
    decreases events.len(),
{
    if events.len() == 0 {
        state
    } else {
        surface_step(surface_after(state, events.drop_last()), events.last())
    }
}

/// Whatever happens, the state stays well-formed and no generation comes back;
/// the view is never lost, and until it is set up there is a setup under way or
/// one that is asked for next; once the surface is set up it stays so, and no
/// tick asks for a setup again.
pub proof fn lemma_surface_history(state: GpuState, events: Seq<GpuEvent>)
    requires
        state.wf(),
    ensures
        ({
            let after = surface_after(state, events);
            &&& after.wf()
            &&& after.generation >= state.generation
            &&& after.surface_present || after.setup_in_progress
            &&& after.runtime_present && !after.setup_done ==> after.setup_in_progress
                || after.setup_step() is NeedSetup
            &&& state.setup_done ==> after.setup_done
            &&& state.runtime_present ==> after.runtime_present
            &&& forall|redraw: bool, size: PixelSize|
                !(#[trigger] after.work(redraw, size) is Setup)
        }),
    decreases events.len(),
{
    if events.len() > 0 {
        lemma_surface_history(state, events.drop_last());
    }
}

/// Work that was under way when the widget was torn down counts for nothing,
/// whatever happens afterwards: a readback of it is discarded, and a setup of
/// it does nothing but give the view back, which is then set up once more.
pub proof fn lemma_torn_down_work_is_dropped(
    state: GpuState,
    events: Seq<GpuEvent>,
    generation: u64,
    pixels: bool,
)
    requires
        state.wf(),
        state.generation < u64::MAX,
        generation <= state.generation,
    ensures
        ({
            let after = surface_after(state.unrealized(), events);
            &&& after.presentation(generation, pixels) is Discard
            &&& after.set_up(generation) == (GpuState {
                setup_in_progress: false,
                surface_present: true,
                ..after
            })
            &&& !after.setup_done && after.runtime_present ==> after.set_up(
                generation,
            ).setup_step() == (SetupStep::NeedSetup { generation: after.generation })
        }),
{
    lemma_surface_history(state.unrealized(), events);
}

/// No frame starts while the one before it is read back.
pub proof fn lemma_frames_wait_for_readback(state: GpuState, redraw_dirty: bool, size: PixelSize)
    requires
        state.readback_in_flight,
    ensures
        state.work(redraw_dirty, size) is Idle,
{
}

/// A scale factor as a number of points, at least one.
pub open spec fn scale_of(scale_factor: i32) -> Single {
    Single::of_int(if scale_factor < 1 {
        1
    } else {
        scale_factor as int
    })
}

fn scale_points(scale_factor: i32) -> (r: Single)
    ensures
        r == scale_of(scale_factor),
{
    Single::from_i32(if scale_factor < 1 { 1 } else { scale_factor })
}

/// A place reported by the toolkit, in the pixels of the surface.
pub open spec fn in_pixels(x: Double, y: Double, scale_factor: i32) -> Point {
    let scale = scale_of(scale_factor);
    Point { x: Single::product(x.narrowed(), scale), y: Single::product(y.narrowed(), scale) }
}

fn to_surface_pixels(x: Double, y: Double, scale_factor: i32) -> (r: Point)
    ensures
        r == in_pixels(x, y, scale_factor),
{
    let scale: Single = scale_points(scale_factor);
    Point { x: x.narrow().times(scale), y: y.narrow().times(scale) }
}

/// A box of whole points.
#[derive(Clone, Copy, Debug, PartialEq, Eq, Structural)]
pub struct PointBox {
    pub x: i32,
    pub y: i32,
    pub width: i32,
    pub height: i32,
}

/// The middle of an interval that starts at `start`, in points.
pub open spec fn middle(start: i32, length: i32) -> Single {
    Single::sum(
        Single::product(Single::of_int(length as int), Single { bits: HALF }),
        Single::of_int(start as int),
    )
}

/// The middle is rounded once: halving the length loses nothing.
pub proof fn lemma_middle_is_rounded_once(length: i32)
    ensures
        2 * Single::product(Single::of_int(length as int), Single { bits: HALF }).value()
            == Single::of_int(length as int).value(),
{
    lemma_half_of_whole(length as int);
}

fn midpoint(start: i32, length: i32) -> (r: Single)
    ensures
        r == middle(start, length),
{
    Single::from_i32(length).times(Single { bits: HALF }).plus(Single::from_i32(start))
}

/// The middle of a box, in the pixels of the surface.
pub open spec fn box_center(area: PointBox, scale_factor: i32) -> Point {
    let scale = scale_of(scale_factor);
    Point {
        x: Single::product(middle(area.x, area.width), scale),
        y: Single::product(middle(area.y, area.height), scale),
    }
}

/// The place from which offsets are counted.
pub open spec fn origin() -> Point {
    Point { x: Single { bits: ZERO }, y: Single { bits: ZERO } }
}

fn zero_point() -> (r: Point)
    ensures
        r == origin(),
{
    Point { x: Single { bits: ZERO }, y: Single { bits: ZERO } }
}

impl GpuState {
    /// The surface once the pointer is at a place.
    pub open spec fn moved(self, x: Double, y: Double, scale_factor: i32) -> GpuState {
        GpuState {
            pointer: PointerState {
                position: Some(in_pixels(x, y, scale_factor)),
                ..self.pointer
            },
            ..self
        }
    }

    /// The surface once the pointer left it.
    pub open spec fn left(self) -> GpuState {
        GpuState {
            pointer: PointerState { position: None, ..self.pointer },
            ..self
        }
    }

    /// The surface once it was pressed at a place.
    pub open spec fn struck(self, x: Double, y: Double, scale_factor: i32) -> GpuState {
        GpuState {
            pointer: PointerState {
                hit: Some(in_pixels(x, y, scale_factor)),
                ..self.pointer
            },
            ..self
        }
    }

    /// The surface once the `presses`th press of a series ended.
    pub open spec fn lifted(self, presses: i32) -> GpuState {
        let lifted = PointerState { hit: None, ..self.pointer };
        if presses >= 2 {
            GpuState {
                pointer: lifted,
                gesture: GestureState {
                    pinch_scale: Single { bits: ONE },
                    pinch_center: None,
                    pan_offset: origin(),
                    double_tap: true,
                    active: false,
                },
                pan_active: false,
                last_pinch_update: None,
                ..self
            }
        } else {
            GpuState { pointer: lifted, ..self }
        }
    }

    /// The surface once a drag started.
    pub open spec fn dragging(self) -> GpuState {
        GpuState {
            pan_active: true,
            gesture: GestureState {
                active: true,
                pan_offset: origin(),
                ..self.gesture
            },
            ..self
        }
    }

    /// The surface once the drag is at an offset.
    pub open spec fn dragged(self, offset_x: Double, offset_y: Double, scale_factor: i32) -> GpuState {
        GpuState {
            gesture: GestureState {
                active: true,
                pan_offset: in_pixels(offset_x, offset_y, scale_factor),
                ..self.gesture
            },
            ..self
        }
    }

    /// The surface once the drag ended.
    pub open spec fn dropped(self) -> GpuState {
        GpuState {
            pan_active: false,
            gesture: GestureState {
                pan_offset: origin(),
                active: self.last_pinch_update is Some && self.gesture.active,
                ..self.gesture
            },
            ..self
        }
    }

    /// The surface once a pinch changed its scale.
    pub open spec fn pinched(self, scale: Double, area: Option<PointBox>, scale_factor: i32, now: u64) -> GpuState {
        GpuState {
            gesture: GestureState {
                active: true,
                pinch_scale: scale.narrowed(),
                pinch_center: match area {
                    Some(area) => Some(box_center(area, scale_factor)),
                    None => None,
                },
                ..self.gesture
            },
            last_pinch_update: Some(now),
            ..self
        }
    }
}

impl GpuState {
    /// The pointer came over the surface, or moved over it.
    pub fn pointer_moved(&mut self, x: Double, y: Double, scale_factor: i32)
        ensures
            *final(self) == old(self).moved(x, y, scale_factor),
    {
        self.pointer.position = Some(to_surface_pixels(x, y, scale_factor));
    }

    /// The pointer left the surface.
    pub fn pointer_left(&mut self)
        ensures
            *final(self) == old(self).left(),
    {
        self.pointer.position = None;
    }

    /// A button or a finger went down.
    pub fn pressed(&mut self, x: Double, y: Double, scale_factor: i32)
        ensures
            *final(self) == old(self).struck(x, y, scale_factor),
    {
        self.pointer.hit = Some(to_surface_pixels(x, y, scale_factor));
    }

    /// The press ended, the `presses`th of a series. From the second on it is a
    /// double tap, which ends every other gesture.
    pub fn released(&mut self, presses: i32)
        ensures
            *final(self) == old(self).lifted(presses),
    {
        self.pointer.hit = None;
        if presses >= 2 {
            self.gesture.double_tap = true;
            self.gesture.active = false;
            self.gesture.pinch_scale = Single { bits: ONE };
            self.gesture.pinch_center = None;
            self.gesture.pan_offset = zero_point();
            self.pan_active = false;
            self.last_pinch_update = None;
        }
    }

    /// A drag started.
    pub fn drag_begin(&mut self)
        ensures
            *final(self) == old(self).dragging(),
    {
        self.pan_active = true;
        self.gesture.active = true;
        self.gesture.pan_offset = zero_point();
    }

    /// The drag went on to an offset from its start.
    pub fn drag_update(&mut self, offset_x: Double, offset_y: Double, scale_factor: i32)
        ensures
            *final(self) == old(self).dragged(offset_x, offset_y, scale_factor),
    {
        self.gesture.active = true;
        self.gesture.pan_offset = to_surface_pixels(offset_x, offset_y, scale_factor);
    }

    /// The drag ended. The gesture is over unless a pinch was seen.
    pub fn drag_end(&mut self)
        ensures
            *final(self) == old(self).dropped(),
    {
        self.pan_active = false;
        self.gesture.pan_offset = zero_point();
        if self.last_pinch_update.is_none() {
            self.gesture.active = false;
        }
    }

    /// A pinch changed its scale at the moment `now`. `area` is the box around
    /// the fingers, where the toolkit knows it.
    pub fn pinch(&mut self, scale: Double, area: Option<PointBox>, scale_factor: i32, now: u64)
        ensures
            *final(self) == old(self).pinched(scale, area, scale_factor, now),
    {
        let factor: Single = scale_points(scale_factor);
        self.gesture.active = true;
        self.gesture.pinch_scale = scale.narrow();
        self.gesture.pinch_center = match area {
            Some(area) => Some(
                Point {
                    x: midpoint(area.x, area.width).times(factor),
                    y: midpoint(area.y, area.height).times(factor),
                },
            ),
            None => None,
        };
        self.last_pinch_update = Some(now);
    }
}

/// How a surface takes part in the layout of its toolkit parent.
#[derive(Clone, Copy, Debug, PartialEq, Eq, Structural)]
pub struct StretchSizing {
    pub hexpand: bool,
    pub vexpand: bool,
    /// The extents to be requested, `-1` for none; nothing is requested of a
    /// surface that stretches both ways.
    pub request_width: i32,
    pub request_height: i32,
    pub requests: bool,
}

/// The extent to be requested on one axis: what the view measured, in whole
/// points that hold it.
pub open spec fn requested_extent(stretches: bool, measured: Single) -> i32 {
    if stretches {
        -1i32
    } else if measured.nan() {
        0i32
    } else {
        saturate_i32(measured.ceiling())
    }
}

/// How a surface with the given stretch takes part in the layout.
pub open spec fn stretch_sizing(stretch: StretchAxis, measured: Size) -> StretchSizing {
    StretchSizing {
        hexpand: stretch.fills_width(),
        vexpand: stretch.fills_height(),
        request_width: requested_extent(stretch.fills_width(), measured.width),
        request_height: requested_extent(stretch.fills_height(), measured.height),
        requests: !(stretch.fills_width() && stretch.fills_height()),
    }
}

/// How a surface with the given stretch takes part in the layout: an axis on
/// which it does not stretch takes the extent that the view measured. Nothing
/// of `measured` counts for a surface that stretches both ways.
pub fn apply_stretch_sizing(stretch: StretchAxis, measured: Size) -> (r: StretchSizing)
    ensures
        r == stretch_sizing(stretch, measured),
{
    let hexpand: bool = stretch.stretches_horizontal();
    let vexpand: bool = stretch.stretches_vertical();
    StretchSizing {
        hexpand,
        vexpand,
        request_width: if hexpand { -1 } else { measured.width.ceil_i32() },
        request_height: if vexpand { -1 } else { measured.height.ceil_i32() },
        requests: !(hexpand && vexpand),
    }
}

/// A frame goes on with the target that is there if and only if that target is
/// as wide and as high as the frame. The next frame finds a target of the size
/// of this one.
pub proof fn lemma_target_fits_the_frame(
    state: GpuState,
    size: PixelSize,
    now: u64,
    next: PixelSize,
    later: u64,
)
    ensures
        !state.frame(size, now).new_target <==> (state.target matches Some(target) && target.width
            == size.width && target.height == size.height),
        !state.starting_frame(size, now).frame(next, later).new_target <==> (next.width
            == size.width && next.height == size.height),
        state.starting_frame(size, now).target == Some(size),
{
}

/// A frame is told the time since the surface was made and since the frame
/// before it, and no time at all by a clock that went back. The first frame is
/// told that the one before it came a sixtieth of a second ago.
pub proof fn lemma_frames_tell_the_time(
    state: GpuState,
    size: PixelSize,
    now: u64,
    next: PixelSize,
    later: u64,
)
    ensures
        now >= state.start_time ==> state.frame(size, now).elapsed + state.start_time == now,
        now < state.start_time ==> state.frame(size, now).elapsed == 0,
        now >= state.last_frame_time ==> state.frame(size, now).delta + state.last_frame_time
            == now,
        now < state.last_frame_time ==> state.frame(size, now).delta == 0,
        later >= now ==> state.starting_frame(size, now).frame(next, later).delta + now == later,
        later >= state.start_time ==> state.starting_frame(size, now).frame(next, later).elapsed
            + state.start_time == later,
        now >= FIRST_FRAME_DELTA ==> GpuState::initial(now).frame(size, now).delta
            == FIRST_FRAME_DELTA && GpuState::initial(now).frame(size, now).elapsed == 0,
{
}

/// A frame is rendered with the pointer and the gesture as they are, and leaves
/// all of the state alone but for its target and its time.
pub proof fn lemma_frame_sees_the_input(state: GpuState, size: PixelSize, now: u64)
    ensures
        state.frame(size, now).pointer.position == state.pointer.position,
        state.frame(size, now).pointer.hit == state.pointer.hit,
        state.frame(size, now).gesture == state.gesture,
        state.starting_frame(size, now).last_frame_time == now,
        (GpuState {
            target: state.target,
            last_frame_time: state.last_frame_time,
            ..state.starting_frame(size, now)
        }) == state,
{
}

/// A tick renders if and only if the surface is set up, nothing is read back and
/// someone asked for a frame: the view, a change of size, or anyone else. It
/// renders at the widget's size.
pub proof fn lemma_ticks_render_what_is_due(state: GpuState, redraw_dirty: bool, size: PixelSize)
    requires
        state.wf(),
    ensures
        state.work(redraw_dirty, size) is Render <==> state.setup_done && !state.readback_in_flight
            && (state.view_wants_frame || state.size_dirty || redraw_dirty),
        state.work(redraw_dirty, size) matches FrameWork::Render { size: rendered } ==> rendered
            == size,
        !(state.work(redraw_dirty, size) is Setup),
{
}

/// Once a frame was rendered and read back, the surface rests until a frame is
/// asked for: by the view while it rendered, by a change of size, by a teardown,
/// or from outside.
pub proof fn lemma_frames_come_when_asked_for(
    state: GpuState,
    asked: bool,
    redraw_dirty: bool,
    size: PixelSize,
)
    requires
        state.wf(),
        state.setup_done,
        state.target is Some,
        state.generation < u64::MAX,
    ensures
        ({
            let rested = state.rendered(asked).read_back();
            &&& state.rendered(asked).work(redraw_dirty, size) is Idle
            &&& rested.work(redraw_dirty, size) is Render <==> asked || redraw_dirty
            &&& rested.resized().work(redraw_dirty, size) is Render
            &&& rested.unrealized().work(redraw_dirty, size) is Render
            &&& rested.target == state.target
            &&& rested.generation == state.generation
        }),
{
}

/// The bring-up takes one step at a time: the runtime first, then the view's
/// setup, under the generation of the moment; while that is under way nothing is
/// asked for, and once it counted nothing ever is. The view is away in between,
/// and the first frame is due when it comes back.
pub proof fn lemma_bring_up_takes_its_steps(state: GpuState)
    requires
        state.wf(),
    ensures
        state.setup_done || state.setup_in_progress ==> state.setup_step() is Done
            && state.setting_up() == state,
        !state.setup_done && !state.setup_in_progress && !state.runtime_present
            ==> state.setup_step() is NeedRuntime && state.setting_up() == state,
        !state.setup_done && !state.setup_in_progress && state.runtime_present
            ==> state.setup_step() == (SetupStep::NeedSetup { generation: state.generation })
            && state.setting_up().setup_in_progress && !state.setting_up().surface_present
            && state.setting_up().setup_step() is Done,
        state.with_runtime().runtime_present,
        (GpuState { runtime_present: state.runtime_present, ..state.with_runtime() }) == state,
        state.setup_in_progress ==> {
            let after = state.set_up(state.generation);
            &&& after.setup_done && after.surface_present && !after.setup_in_progress
            &&& after.view_wants_frame
            &&& after.setup_step() is Done
        },
{
}

/// Pixels are shown where the widget is still the one that rendered them; where
/// there are none, the last frame stays; after a teardown nothing is shown. The
/// next frame may come in any case.
pub proof fn lemma_pixels_are_shown_once(state: GpuState, generation: u64, pixels: bool)
    ensures
        state.presentation(generation, pixels) is Present <==> generation == state.generation
            && pixels,
        state.presentation(generation, pixels) is KeepLast <==> generation == state.generation
            && !pixels,
        state.presentation(generation, pixels) is Discard <==> generation != state.generation,
        !state.read_back().readback_in_flight,
        (GpuState { readback_in_flight: state.readback_in_flight, ..state.read_back() }) == state,
{
}

/// A teardown raises the generation and asks for a frame; what is set up, the
/// target and the input stay. A new size asks for a frame and does nothing else.
pub proof fn lemma_teardown_keeps_what_is_set_up(state: GpuState)
    requires
        state.generation < u64::MAX,
    ensures
        state.unrealized().generation == state.generation + 1,
        state.unrealized().view_wants_frame && state.unrealized().size_dirty,
        (GpuState {
            generation: state.generation,
            view_wants_frame: state.view_wants_frame,
            size_dirty: state.size_dirty,
            ..state.unrealized()
        }) == state,
        state.resized().size_dirty,
        (GpuState { size_dirty: state.size_dirty, ..state.resized() }) == state,
{
}

/// A place in whole points lies at as many times the pixels as the scale factor
/// says, across and down alike; a factor below one counts as one.
pub proof fn lemma_places_scale(x: int, y: int, scale_factor: i32)
    requires
        -0x100_0000 < x < 0x100_0000,
        -0x100_0000 < y < 0x100_0000,
        scale_factor < 0x100_0000,
        scale_factor >= 1 ==> -0x100_0000 < x * scale_factor < 0x100_0000 && -0x100_0000 < y
            * scale_factor < 0x100_0000,
    ensures
        in_pixels(Double::of_int(x), Double::of_int(y), scale_factor) == in_pixels(
            Double::of_int(x),
            Double::of_int(y),
            if scale_factor < 1 {
                1
            } else {
                scale_factor
            },
        ),
        scale_factor >= 1 ==> in_pixels(Double::of_int(x), Double::of_int(y), scale_factor).x
            == Single::of_int(x * scale_factor),
        scale_factor >= 1 ==> in_pixels(Double::of_int(x), Double::of_int(y), scale_factor).y
            == Single::of_int(y * scale_factor),
        scale_factor < 1 ==> in_pixels(Double::of_int(x), Double::of_int(y), scale_factor).x
            == Single::of_int(x),
        scale_factor < 1 ==> in_pixels(Double::of_int(x), Double::of_int(y), scale_factor).y
            == Single::of_int(y),
{
    lemma_double_small_whole_is_exact(x);
    lemma_double_small_whole_is_exact(y);
    if scale_factor >= 1 {
        lemma_small_wholes_multiply(x, scale_factor as int);
        lemma_small_wholes_multiply(y, scale_factor as int);
    } else {
        assert(x * 1 == x && y * 1 == y);
        lemma_small_wholes_multiply(x, 1);
        lemma_small_wholes_multiply(y, 1);
    }
}

/// The middle of an interval lies half its length behind its start.
pub proof fn lemma_middle_is_half_way(start: i32, half: int)
    requires
        -0x100_0000 < start < 0x100_0000,
        -0x80_0000 < half < 0x80_0000,
    ensures
        middle(start, (2 * half) as i32) == Single::of_int(start + half),
{
    let whole = Single::of_int(2 * half);
    let part = Single::product(whole, Single { bits: HALF });
    let d = pow2(149) as int;
    lemma_pow2_pos(149);
    lemma_half_of_whole(2 * half);
    lemma_small_whole_is_exact(2 * half);
    lemma_small_whole_is_exact(half);
    assert((2 * half) * d == 2 * (half * d)) by (nonlinear_arith);
    lemma_constants();
    lemma_of_units_keeps_the_sign(
        whole.negative(),
        round_units(whole.units() * (Single { bits: HALF }).units(), 149, 24),
    );
    lemma_value_and_sign_tell_numbers_apart(part, Single::of_int(half));
    lemma_small_wholes_add(half, start as int);
}

/// A pinch is centered in the middle of the box around the fingers, across and
/// down alike, at the surface's scale.
pub proof fn lemma_pinch_is_centered(
    x: i32,
    y: i32,
    half_width: int,
    half_height: int,
    scale_factor: i32,
)
    requires
        -0x80_0000 < x < 0x80_0000,
        -0x80_0000 < y < 0x80_0000,
        0 <= half_width < 0x80_0000,
        0 <= half_height < 0x80_0000,
        1 <= scale_factor < 0x100_0000,
        -0x100_0000 < (x + half_width) * scale_factor < 0x100_0000,
        -0x100_0000 < (y + half_height) * scale_factor < 0x100_0000,
    ensures
        box_center(
            PointBox { x, y, width: (2 * half_width) as i32, height: (2 * half_height) as i32 },
            scale_factor,
        ) == (Point {
            x: Single::of_int((x + half_width) * scale_factor),
            y: Single::of_int((y + half_height) * scale_factor),
        }),
{
    lemma_middle_is_half_way(x, half_width);
    lemma_middle_is_half_way(y, half_height);
    lemma_small_wholes_multiply(x + half_width, scale_factor as int);
    lemma_small_wholes_multiply(y + half_height, scale_factor as int);
}

/// The pointer is where it moved until it leaves; a press is under way from
/// where it started until it ends; and neither has a part in the other, or in
/// anything else.
pub proof fn lemma_pointer_and_press_are_apart(
    state: GpuState,
    x: Double,
    y: Double,
    scale_factor: i32,
    presses: i32,
)
    ensures
        state.moved(x, y, scale_factor).pointer.position == Some(in_pixels(x, y, scale_factor)),
        state.moved(x, y, scale_factor).pointer.hit == state.pointer.hit,
        (GpuState { pointer: state.pointer, ..state.moved(x, y, scale_factor) }) == state,
        state.left().pointer.position is None,
        state.left().pointer.hit == state.pointer.hit,
        (GpuState { pointer: state.pointer, ..state.left() }) == state,
        state.struck(x, y, scale_factor).pointer.hit == Some(in_pixels(x, y, scale_factor)),
        state.struck(x, y, scale_factor).pointer.position == state.pointer.position,
        (GpuState { pointer: state.pointer, ..state.struck(x, y, scale_factor) }) == state,
        state.lifted(presses).pointer.hit is None,
        state.lifted(presses).pointer.position == state.pointer.position,
        presses < 2 ==> (GpuState { pointer: state.pointer, ..state.lifted(presses) }) == state,
{
}

/// The second press of a series, and every one after it, is a double tap: it
/// ends every other gesture, with nothing panned and the scale back at one.
pub proof fn lemma_double_tap_ends_gestures(state: GpuState, presses: i32)
    requires
        presses >= 2,
    ensures
        ({
            let after = state.lifted(presses);
            &&& after.gesture.double_tap
            &&& !after.gesture.active
            &&& after.gesture.pinch_scale.value() == pow2(149)
            &&& after.gesture.pinch_center is None
            &&& after.gesture.pan_offset.x.value() == 0 && after.gesture.pan_offset.y.value() == 0
            &&& !after.pan_active
            &&& after.last_pinch_update is None
            &&& (GpuState {
                pointer: state.pointer,
                gesture: state.gesture,
                pan_active: state.pan_active,
                last_pinch_update: state.last_pinch_update,
                ..after
            }) == state
        }),
{
    lemma_constants();
}

/// A drag pans from nothing to where it is and back to nothing when it ends. The
/// gesture is active throughout, and after the end only if it was and a pinch
/// was seen. What a pinch left, and everything else, stays.
pub proof fn lemma_drag_pans(
    state: GpuState,
    x: Double,
    y: Double,
    scale_factor: i32,
    after: GpuState,
)
    ensures
        state.dragging().pan_active && state.dragging().gesture.active,
        state.dragging().gesture.pan_offset.x.value() == 0,
        state.dragging().gesture.pan_offset.y.value() == 0,
        state.dragged(x, y, scale_factor).gesture.active,
        state.dragged(x, y, scale_factor).gesture.pan_offset == in_pixels(x, y, scale_factor),
        state.dragged(x, y, scale_factor).pan_active == state.pan_active,
        !state.dropped().pan_active,
        state.dropped().gesture.pan_offset.x.value() == 0,
        state.dropped().gesture.pan_offset.y.value() == 0,
        state.dropped().gesture.active <==> state.gesture.active && state.last_pinch_update is Some,
        after == state.dragging() || after == state.dragged(x, y, scale_factor) || after
            == state.dropped() ==> (GpuState {
            pan_active: state.pan_active,
            gesture: GestureState {
                active: state.gesture.active,
                pan_offset: state.gesture.pan_offset,
                ..after.gesture
            },
            ..after
        }) == state,
{
    lemma_constants();
}

/// A pinch makes the gesture active and is remembered with its time, scale and
/// center; without a box it has no center. A drag that is under way goes on.
pub proof fn lemma_pinch_is_remembered(
    state: GpuState,
    scale: Double,
    area: Option<PointBox>,
    scale_factor: i32,
    now: u64,
)
    ensures
        ({
            let after = state.pinched(scale, area, scale_factor, now);
            &&& after.gesture.active
            &&& after.gesture.pinch_scale == scale.narrowed()
            &&& after.gesture.pinch_center is Some <==> area is Some
            &&& after.last_pinch_update == Some(now)
            &&& after.dropped().gesture.active
            &&& after.gesture.pan_offset == state.gesture.pan_offset
            &&& after.gesture.double_tap == state.gesture.double_tap
            &&& (GpuState {
                gesture: state.gesture,
                last_pinch_update: state.last_pinch_update,
                ..after
            }) == state
        }),
        !scale.nan() ==> state.pinched(scale, area, scale_factor, now).gesture.pinch_scale.negative()
            == scale.negative(),
{
    lemma_narrowing_keeps_the_extremes(scale);
}

/// A surface expands on the axes that it stretches on and requests nothing
/// there; on any other it requests the least whole extent that holds what the
/// view measured. Only one that stretches both ways requests nothing at all.
pub proof fn lemma_requests_hold_the_view(stretch: StretchAxis, measured: Size)
    ensures
        ({
            let r = stretch_sizing(stretch, measured);
            let across = stretch is Horizontal || stretch is Both;
            let down = stretch is Vertical || stretch is Both;
            &&& r.hexpand == across && r.vexpand == down
            &&& r.requests <==> !(stretch is Both)
            &&& across ==> r.request_width == -1
            &&& down ==> r.request_height == -1
            &&& !across && !measured.width.nan() && i32::MIN < r.request_width < i32::MAX ==> (
            r.request_width - 1) * pow2(149) < measured.width.value() <= r.request_width * pow2(149)
            &&& !down && !measured.height.nan() && i32::MIN < r.request_height < i32::MAX ==> (
            r.request_height - 1) * pow2(149) < measured.height.value() <= r.request_height * pow2(
                149,
            )
            &&& !across && !measured.width.nan() && r.request_width == i32::MAX ==> (i32::MAX - 1)
                * pow2(149) < measured.width.value()
            &&& !across && !measured.width.nan() && r.request_width == i32::MIN
                ==> measured.width.value() <= i32::MIN * pow2(149)
            &&& !down && !measured.height.nan() && r.request_height == i32::MAX ==> (i32::MAX - 1)
                * pow2(149) < measured.height.value()
            &&& !down && !measured.height.nan() && r.request_height == i32::MIN
                ==> measured.height.value() <= i32::MIN * pow2(149)
            &&& !across && measured.width.nan() ==> r.request_width == 0
            &&& !down && measured.height.nan() ==> r.request_height == 0
        }),
{
    lemma_ceiling_holds_the_number(measured.width);
    lemma_ceiling_holds_the_number(measured.height);
    lemma_pow2_pos(149);
    let d = pow2(149) as int;
    let c = measured.width.ceiling();
    let e = measured.height.ceiling();
    assert((c >= i32::MAX ==> (c - 1) * d >= (i32::MAX - 1) * d) && (e >= i32::MAX ==> (e - 1) * d
        >= (i32::MAX - 1) * d) && (c <= i32::MIN ==> c * d <= i32::MIN * d) && (e <= i32::MIN ==> e
        * d <= i32::MIN * d)) by (nonlinear_arith)
        requires
            d > 0,
    ;
}

/// A new surface asks for the runtime, then for the view's setup, and then
/// renders a first frame into a new target. No pointer is over it, and no
/// gesture is under way.
pub proof fn lemma_new_surface_comes_to_its_first_frame(now: u64, size: PixelSize)
    requires
        now >= FIRST_FRAME_DELTA,
    ensures
        ({
            let surface = GpuState::initial(now);
            let setting = surface.with_runtime().setting_up();
            let ready = setting.set_up(surface.generation);
            &&& surface.wf()
            &&& surface.setup_step() is NeedRuntime
            &&& surface.work(true, size) is Idle
            &&& surface.with_runtime().setup_step() == (SetupStep::NeedSetup {
                generation: surface.generation,
            })
            &&& !setting.surface_present
            &&& ready.work(false, size) is Render
            &&& ready.frame(size, now).new_target
            &&& surface.pointer.position is None && surface.pointer.hit is None
            &&& !surface.gesture.active && !surface.gesture.double_tap
            &&& surface.gesture.pinch_center is None && surface.last_pinch_update is None
            &&& surface.gesture.pan_offset == origin()
        }),
{
}

/// A tick renders a widget at as many times its points as the scale factor says,
/// width for width and height for height.
pub proof fn lemma_ticks_render_at_the_widgets_size(
    state: GpuState,
    redraw_dirty: bool,
    scale_factor: i32,
    width: i32,
    height: i32,
)
    requires
        state.wf(),
        scale_factor >= 1,
        width >= 1,
        height >= 1,
        width * scale_factor <= u32::MAX,
        height * scale_factor <= u32::MAX,
    ensures
        state.pumped(redraw_dirty, scale_factor, width, height) matches FrameWork::Render { size }
            ==> size.width == width * scale_factor && size.height == height * scale_factor,
        state.pumped(redraw_dirty, scale_factor, width, height) is Render <==> state.setup_done
            && !state.readback_in_flight && state.wants_frame(redraw_dirty),
        state.wants_frame(redraw_dirty) <==> state.view_wants_frame || state.size_dirty
            || redraw_dirty,
{
    lemma_widgets_scale(scale_factor, width, height);
}

/// Work counts under the generation that it started in, and under no other: none
/// that started before a teardown counts after it.
pub proof fn lemma_work_counts_in_its_own_life(state: GpuState, generation: u64)
    requires
        state.generation < u64::MAX,
    ensures
        state.counts(state.generation),
        state.counts(generation) ==> !state.unrealized().counts(generation),
        state.counts(generation) <==> !(state.presentation(generation, true) is Discard),
        state.setup_in_progress && !state.setup_done ==> (state.set_up(generation).setup_done
            <==> state.counts(generation)),
{
}

/// Wherever a place is, it is narrowed and then scaled, across and down each by
/// itself; the middle of any box lies half its lengths behind its corner.
pub proof fn lemma_any_place_scales(
    x: Double,
    y: Double,
    area: PointBox,
    scale_factor: i32,
)
    requires
        scale_factor >= 1,
    ensures
        in_pixels(x, y, scale_factor).x == Single::product(
            x.narrowed(),
            Single::of_int(scale_factor as int),
        ),
        in_pixels(x, y, scale_factor).y == Single::product(
            y.narrowed(),
            Single::of_int(scale_factor as int),
        ),
        in_pixels(y, x, scale_factor) == (Point {
            x: in_pixels(x, y, scale_factor).y,
            y: in_pixels(x, y, scale_factor).x,
        }),
        box_center(area, scale_factor).x == Single::product(
            middle(area.x, area.width),
            Single::of_int(scale_factor as int),
        ),
        box_center(area, scale_factor).y == Single::product(
            middle(area.y, area.height),
            Single::of_int(scale_factor as int),
        ),
{
}

} // verus!
