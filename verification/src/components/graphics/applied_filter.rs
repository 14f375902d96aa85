//! The life of a container that shows its child through a filter.
//!
//! A snapshot captures the child when its contents or its size changed, runs
//! the filter on the capture and shows the result, once it was read back. A
//! filter that is animated runs again on the capture it already has. One such
//! task is under way at a time: the next capture waits for it, and only its own
//! end, or a teardown, makes way for another. What a torn-down host still had
//! under way counts for nothing when it ends.

use crate::components::graphics::shared_gpu::{
    lemma_products_saturate, lemma_widgets_scale, saturated_product, saturating_product, PixelSize,
};
use vstd::prelude::*;

verus! {

/// Where the bring-up stands.
#[derive(Clone, Copy, Debug, PartialEq, Eq, Structural)]
pub enum SetupPhase {
    Idle,
    RequestingDevice,
    RequestingFilter,
    Ready,
}

/// The state of a filtered container.
#[derive(Clone, Copy, Debug, PartialEq, Eq, Structural)]
pub struct FilterState {
    pub child_present: bool,
    /// The filter is here, and not with a setup under way.
    pub filter_present: bool,
    pub runtime_present: bool,
    pub setup_phase: SetupPhase,
    /// The child's contents or its size changed since the last capture.
    pub capture_dirty: bool,
    /// The size of the next capture.
    pub capture_size: Option<PixelSize>,
    /// The size of the input texture that is kept, if one is.
    pub input_texture: Option<PixelSize>,
    /// A filtered frame is on screen.
    pub presented: bool,
    /// A filter task is under way, and the next one waits for it.
    pub filter_task_in_flight: bool,
    /// The filter asked for another frame of the same input.
    pub refilter_pending: bool,
    /// Raised when the host is torn down.
    pub generation: u64,
}

/// What the bring-up needs next.
#[derive(Clone, Copy, Debug, PartialEq, Eq, Structural)]
pub enum Kick {
    Nothing,
    /// The shared runtime.
    Runtime,
    /// The filter's own setup, which takes the filter along. Its result is for
    /// this generation.
    FilterSetup { generation: u64 },
}

/// What a snapshot does.
#[derive(Clone, Copy, Debug, PartialEq, Eq, Structural)]
pub enum Pass {
    /// The bring-up is not over: nothing, not even the last frame.
    NotReady,
    /// Capture the child and filter the capture; the last frame stays shown.
    Recapture,
    /// Filter the kept capture again; the last frame stays shown.
    Refilter,
    /// Show the last frame.
    Unchanged,
}

impl FilterState {
    /// What every state of a host satisfies: the filter is away while it is
    /// set up, and a host that is ready has all it needs.
    pub open spec fn wf(self) -> bool {
        &&& self.setup_phase is RequestingFilter ==> !self.filter_present && self.runtime_present
        &&& self.setup_phase is Ready ==> self.filter_present && self.runtime_present
        &&& self.setup_phase is RequestingDevice ==> !self.runtime_present
    }

    /// A host with neither child nor filter.
    pub open spec fn empty() -> FilterState {
        FilterState {
            child_present: false,
            filter_present: false,
            runtime_present: false,
            setup_phase: SetupPhase::Idle,
            capture_dirty: true,
            capture_size: None,
            input_texture: None,
            presented: false,
            filter_task_in_flight: false,
            refilter_pending: false,
            generation: 0,
        }
    }

    pub open spec fn kick(self) -> Kick {
        if !(self.setup_phase is Idle) {
            Kick::Nothing
        } else if !self.runtime_present {
            Kick::Runtime
        } else if self.filter_present {
            Kick::FilterSetup { generation: self.generation }
        } else {
            Kick::Nothing
        }
    }

    pub open spec fn kicked(self) -> FilterState {
        match self.kick() {
            Kick::Nothing => self,
            Kick::Runtime => FilterState { setup_phase: SetupPhase::RequestingDevice, ..self },
            Kick::FilterSetup { .. } => FilterState {
                setup_phase: SetupPhase::RequestingFilter,
                filter_present: false,
                ..self
            },
        }
    }

    pub open spec fn with_runtime(self) -> FilterState {
        FilterState { setup_phase: SetupPhase::Idle, runtime_present: true, ..self }
    }

    /// The state once a setup started under `generation` ended. The filter
    /// comes back in any case; a host torn down meanwhile starts over.
    pub open spec fn set_up(self, generation: u64) -> FilterState {
        if self.generation == generation {
            FilterState {
                filter_present: true,
                setup_phase: SetupPhase::Ready,
                capture_dirty: true,
                ..self
            }
        } else {
            FilterState { filter_present: true, setup_phase: SetupPhase::Idle, ..self }
        }
    }

    pub open spec fn pass(self) -> Pass {
        if !(self.setup_phase is Ready) {
            Pass::NotReady
        } else if self.filter_task_in_flight {
            Pass::Unchanged
        } else if self.capture_dirty {
            Pass::Recapture
        } else if self.refilter_pending {
            Pass::Refilter
        } else {
            Pass::Unchanged
        }
    }

    /// The state once a snapshot chose its pass.
    pub open spec fn passing(self) -> FilterState {
        match self.pass() {
            Pass::Recapture => FilterState {
                capture_dirty: false,
                filter_task_in_flight: true,
                ..self
            },
            Pass::Refilter => FilterState {
                refilter_pending: false,
                filter_task_in_flight: true,
                ..self
            },
            _ => self,
        }
    }

    /// The state once the host was given a size.
    pub open spec fn allocated(self, size: PixelSize) -> FilterState {
        if self.capture_size != Some(size) {
            FilterState { capture_size: Some(size), capture_dirty: true, ..self }
        } else {
            self
        }
    }

    /// The state once the host was given this geometry.
    pub open spec fn resized(self, scale_factor: i32, width: i32, height: i32) -> FilterState {
        self.allocated(PixelSize::of_widget(scale_factor, width, height))
    }

    /// Whether work that started under `generation` counts.
    pub open spec fn counts(self, generation: u64) -> bool {
        self.generation == generation
    }

    pub open spec fn unrealized(self) -> FilterState {
        FilterState {
            generation: (self.generation + 1) as u64,
            capture_dirty: true,
            capture_size: None,
            presented: false,
            input_texture: None,
            filter_task_in_flight: false,
            refilter_pending: false,
            ..self
        }
    }

    /// The state once a task started under `generation` ended: with no frame,
    /// or with one and the filter's wish for another. One of a torn-down host
    /// changes nothing: the task that is under way now is another.
    pub open spec fn task_done(self, generation: u64, frame: Option<bool>) -> FilterState {
        let landed = FilterState { filter_task_in_flight: false, ..self };
        if self.generation != generation {
            self
        } else {
            match frame {
                Some(needs_redraw) => FilterState {
                    presented: true,
                    refilter_pending: self.refilter_pending || needs_redraw,
                    ..landed
                },
                None => landed,
            }
        }
    }

    /// The size of the capture that a pass works on.
    pub open spec fn pass_size(self) -> Option<PixelSize> {
        if self.runtime_present {
            self.capture_size
        } else {
            None
        }
    }

    /// The state once a pass looked for that size: without one it is given up.
    pub open spec fn measured(self) -> FilterState {
        if self.pass_size() is Some {
            self
        } else {
            FilterState { filter_task_in_flight: false, ..self }
        }
    }

    /// The state once a pass found nothing to capture.
    pub open spec fn emptied(self) -> FilterState {
        FilterState { presented: false, filter_task_in_flight: false, ..self }
    }

    /// The state once a capture of `size` was uploaded.
    pub open spec fn uploaded(self, size: PixelSize) -> FilterState {
        FilterState { input_texture: Some(size), ..self }
    }

    /// Whether a capture of `size` needs another input texture.
    pub open spec fn needs_texture(self, size: PixelSize) -> bool {
        self.input_texture != Some(size)
    }

    /// What the host answers to a measurement that its child answers `child`.
    pub open spec fn extent(self, child: (i32, i32, i32, i32)) -> (i32, i32, i32, i32) {
        if self.child_present {
            child
        } else {
            (-1i32, -1i32, -1i32, -1i32)
        }
    }

    /// The state once the host gave up its child.
    pub open spec fn disposed(self) -> FilterState {
        FilterState { child_present: false, ..self }
    }

    /// A host with neither child nor filter.
    pub fn new() -> (r: FilterState)
        ensures
            r == FilterState::empty(),
            r.wf(),
    {
        FilterState {
            child_present: false,
            filter_present: false,
            runtime_present: false,
            setup_phase: SetupPhase::Idle,
            capture_dirty: true,
            capture_size: None,
            input_texture: None,
            presented: false,
            filter_task_in_flight: false,
            refilter_pending: false,
            generation: 0,
        }
    }

    /// A host that shows a child through a filter.
    pub fn render_applied_filter() -> (r: FilterState)
        ensures
            r == (FilterState {
                child_present: true,
                filter_present: true,
                ..FilterState::empty()
            }),
            r.wf(),
    {
        let mut state: FilterState = FilterState::new();
        state.child_present = true;
        state.filter_present = true;
        state
    }

    /// The host gives up its child. Tells whether there was one to be let go.
    pub fn dispose(&mut self) -> (r: bool)
        ensures
            *final(self) == old(self).disposed(),
            old(self).wf() ==> final(self).wf(),
            r == old(self).child_present,
    {
        let held: bool = self.child_present;
        self.child_present = false;
        held
    }

    /// What the host answers to a measurement: what its child does, if there
    /// is one.
    pub fn measure(&self, child: (i32, i32, i32, i32)) -> (r: (i32, i32, i32, i32))
        ensures
            r == self.extent(child),
    {
        if self.child_present {
            child
        } else {
            (-1, -1, -1, -1)
        }
    }

    /// The host was given a size; another one than before calls for a capture.
    pub fn size_allocate(&mut self, scale_factor: i32, width: i32, height: i32)
        ensures
            *final(self) == old(self).resized(scale_factor, width, height),
    {
        let size: PixelSize = PixelSize::from_widget(scale_factor, width, height);
        let same: bool = match self.capture_size {
            Some(current) => current == size,
            None => false,
        };
        if !same {
            self.capture_size = Some(size);
            self.capture_dirty = true;
        }
    }

    /// The child's contents changed.
    pub fn invalidate_contents(&mut self)
        ensures
            *final(self) == (FilterState { capture_dirty: true, ..*old(self) }),
    {
        self.capture_dirty = true;
    }

    /// The host was torn down. The runtime and a filter that is set up stay;
    /// all that belongs to the screen goes.
    pub fn unrealize(&mut self)
        requires
            old(self).generation < u64::MAX,
        ensures
            *final(self) == old(self).unrealized(),
            old(self).wf() ==> final(self).wf(),
    {
        self.generation = self.generation + 1;
        self.capture_dirty = true;
        self.capture_size = None;
        self.presented = false;
        self.input_texture = None;
        self.filter_task_in_flight = false;
        self.refilter_pending = false;
    }

    /// Takes the next step of the bring-up: the runtime first, then the
    /// filter's setup, each asked for once at a time.
    pub fn ensure_ready(&mut self) -> (r: Kick)
        requires
            old(self).wf(),
        ensures
            final(self).wf(),
            *final(self) == old(self).kicked(),
            r == old(self).kick(),
    {
        match self.setup_phase {
            SetupPhase::Idle => {
                if self.runtime_present {
                    if self.filter_present {
                        self.filter_present = false;
                        self.setup_phase = SetupPhase::RequestingFilter;
                        Kick::FilterSetup { generation: self.generation }
                    } else {
                        Kick::Nothing
                    }
                } else {
                    self.setup_phase = SetupPhase::RequestingDevice;
                    Kick::Runtime
                }
            },
            _ => Kick::Nothing,
        }
    }

    /// The shared runtime came up.
    pub fn runtime_ready(&mut self)
        requires
            old(self).wf(),
            old(self).setup_phase is RequestingDevice,
        ensures
            final(self).wf(),
            *final(self) == old(self).with_runtime(),
    {
        self.setup_phase = SetupPhase::Idle;
        self.runtime_present = true;
    }

    /// The filter's setup that started under `generation` ended.
    pub fn filter_set_up(&mut self, generation: u64)
        requires
            old(self).wf(),
            old(self).setup_phase is RequestingFilter,
        ensures
            final(self).wf(),
            *final(self) == old(self).set_up(generation),
    {
        self.filter_present = true;
        if self.generation == generation {
            self.setup_phase = SetupPhase::Ready;
            self.capture_dirty = true;
        } else {
            self.setup_phase = SetupPhase::Idle;
        }
    }

    /// Chooses what a snapshot does, and takes the flag that called for it.
    pub fn snapshot_filtered(&mut self) -> (r: Pass)
        ensures
            *final(self) == old(self).passing(),
            r == old(self).pass(),
            old(self).wf() ==> final(self).wf(),
    {
        match self.setup_phase {
            SetupPhase::Ready => {
                if self.filter_task_in_flight {
                    Pass::Unchanged
                } else if self.capture_dirty {
                    self.capture_dirty = false;
                    self.filter_task_in_flight = true;
                    Pass::Recapture
                } else if self.refilter_pending {
                    self.refilter_pending = false;
                    self.filter_task_in_flight = true;
                    Pass::Refilter
                } else {
                    Pass::Unchanged
                }
            },
            _ => Pass::NotReady,
        }
    }

    /// The size of the capture that a pass works on. A host that has none yet
    /// gives the pass up.
    pub fn runtime_parts(&mut self) -> (r: Option<PixelSize>)
        ensures
            r == old(self).pass_size(),
            *final(self) == old(self).measured(),
            old(self).wf() ==> final(self).wf(),
    {
        if self.runtime_present {
            if let Some(size) = self.capture_size {
                return Some(size);
            }
        }
        self.filter_task_in_flight = false;
        None
    }

    /// The child drew nothing at all: an empty frame, with nothing to filter.
    pub fn capture_empty(&mut self)
        ensures
            *final(self) == old(self).emptied(),
            old(self).wf() ==> final(self).wf(),
    {
        self.presented = false;
        self.filter_task_in_flight = false;
    }

    /// A capture of `size` is uploaded. Tells whether the input texture has to
    /// be made anew for it.
    pub fn get_or_create(&mut self, size: PixelSize) -> (r: bool)
        ensures
            *final(self) == old(self).uploaded(size),
            old(self).wf() ==> final(self).wf(),
            r == old(self).needs_texture(size),
    {
        let fresh: bool = match self.input_texture {
            Some(current) => current != size,
            None => true,
        };
        if fresh {
            self.input_texture = Some(size);
        }
        fresh
    }

    /// The task that started under `generation` ended, with no frame or with
    /// one and the filter's wish for another. Tells whether a redraw is due.
    pub fn task_finished(&mut self, generation: u64, frame: Option<bool>) -> (r: bool)
        ensures
            *final(self) == old(self).task_done(generation, frame),
            r == old(self).counts(generation),
            old(self).wf() ==> final(self).wf(),
    {
        if self.generation != generation {
            return false;
        }
        self.filter_task_in_flight = false;
        if let Some(needs_redraw) = frame {
            self.presented = true;
            if needs_redraw {
                self.refilter_pending = true;
            }
        }
        true
    }
}

/// The size of a filter's output: what the filter says, and never empty.
pub fn output_size(width: u32, height: u32) -> (r: PixelSize)
    ensures
        r.width == if width < 1 {
            1
        } else {
            width
        },
        r.height == if height < 1 {
            1
        } else {
            height
        },
        r.width >= 1 && r.height >= 1,
        width >= 1 ==> r.width == width,
        height >= 1 ==> r.height == height,
        r.width <= width + 1 && r.height <= height + 1,
{
    PixelSize {
        width: if width < 1 { 1 } else { width },
        height: if height < 1 { 1 } else { height },
    }
}

/// The bytes of a row of a capture, and of the whole.
pub open spec fn capture_bytes(size: PixelSize) -> (int, int) {
    (
        saturated_product(size.width as int, 4) as int,
        saturated_product(size.width as int, 4) * size.height,
    )
}

/// A capture has four bytes for each pixel, row by row.
pub proof fn lemma_captures_have_four_bytes_a_pixel(size: PixelSize)
    requires
        size.width < 0x4000_0000,
    ensures
        capture_bytes(size).0 == 4 * size.width,
        capture_bytes(size).1 == 4 * size.width * size.height,
{
    lemma_products_saturate(size.width as int, 4);
}

/// The memory a capture of `size` is downloaded to: the bytes of a row, and of
/// the whole.
pub fn capture_buffer(size: PixelSize) -> (r: (usize, usize))
    requires
        saturated_product(size.width as int, 4) * size.height <= usize::MAX,
    ensures
        r.0 == capture_bytes(size).0,
        r.1 == capture_bytes(size).1,
{
    let stride: u32 = saturating_product(size.width, 4);
    (stride as usize, stride as usize * size.height as usize)
}

/// What can happen to a host.
pub enum FilterEvent {
    EnsureReady,
    RuntimeReady,
    FilterSetUp { generation: u64 },
    Allocate { size: PixelSize },
    Invalidate,
    Snapshot,
    /// A pass looks for the size of its capture.
    RuntimeParts,
    /// A pass finds nothing to capture.
    CaptureEmpty,
    /// A pass uploads a capture of this size.
    Upload { size: PixelSize },
    TaskFinished { generation: u64, frame: Option<bool> },
    Unrealize,
    Dispose,
}

/// A host after one event. What cannot occur in a state counts as nothing.
pub open spec fn host_step(state: FilterState, event: FilterEvent) -> FilterState {
    match event {
        FilterEvent::EnsureReady => state.kicked(),
        FilterEvent::RuntimeReady => if state.setup_phase is RequestingDevice {
            state.with_runtime()
        } else {
            state
        },
        FilterEvent::FilterSetUp { generation } => if state.setup_phase is RequestingFilter {
            state.set_up(generation)
        } else {
            state
        },
        FilterEvent::Allocate { size } => state.allocated(size),
        FilterEvent::Invalidate => FilterState { capture_dirty: true, ..state },
        FilterEvent::Snapshot => state.passing(),
        FilterEvent::RuntimeParts => state.measured(),
        FilterEvent::CaptureEmpty => state.emptied(),
        FilterEvent::Upload { size } => state.uploaded(size),
        FilterEvent::TaskFinished { generation, frame } => state.task_done(generation, frame),
        FilterEvent::Dispose => state.disposed(),
        FilterEvent::Unrealize => if state.generation < u64::MAX {
            state.unrealized()
        } else {
            state
        },
    }
}

/// A host after a sequence of events.
pub open spec fn host_after(state: FilterState, events: Seq<FilterEvent>) -> FilterState
    decreases events.len(),
{
    if events.len() == 0 {
        state
    } else {
        host_step(host_after(state, events.drop_last()), events.last())
    }
}

/// Whatever happens, the state stays well-formed, no generation comes back and
/// a host that is ready stays ready.
pub proof fn lemma_host_history(state: FilterState, events: Seq<FilterEvent>)
    requires
        state.wf(),
    ensures
        host_after(state, events).wf(),
        host_after(state, events).generation >= state.generation,
        state.setup_phase is Ready ==> host_after(state, events).setup_phase is Ready,
    decreases events.len(),
{
    if events.len() > 0 {
        lemma_host_history(state, events.drop_last());
    }
}

/// Work that was under way when the host was torn down shows nothing, whatever
/// happens afterwards: the end of a task of it changes nothing at all, not even
/// for a task that was started since, and a setup of it does not make the host
/// ready.
pub proof fn lemma_torn_down_work_shows_nothing(
    state: FilterState,
    events: Seq<FilterEvent>,
    generation: u64,
    frame: Option<bool>,
)
    requires
        state.wf(),
        state.generation < u64::MAX,
        generation <= state.generation,
    ensures
        ({
            let after = host_after(state.unrealized(), events);
            let done = after.task_done(generation, frame);
            &&& done == after
            &&& !(after.set_up(generation).setup_phase is Ready)
        }),
{
    lemma_host_history(state.unrealized(), events);
}

/// While a task is under way no other is started, and it stays the one that is
/// under way until it ends: with a frame or without, for want of anything to
/// capture, or with the host.
pub proof fn lemma_tasks_wait_for_each_other(state: FilterState, event: FilterEvent)
    requires
        state.filter_task_in_flight,
    ensures
        !(state.pass() is Recapture) && !(state.pass() is Refilter),
        host_step(state, event).filter_task_in_flight || match event {
            FilterEvent::TaskFinished { generation, .. } => generation == state.generation,
            FilterEvent::RuntimeParts => state.pass_size() is None,
            FilterEvent::CaptureEmpty => true,
            FilterEvent::Unrealize => true,
            _ => false,
        },
{
}

/// A change of the child's contents is never lost: the flag it raises stays up
/// until a snapshot captures the child.
pub proof fn lemma_invalidation_leads_to_a_capture(state: FilterState, event: FilterEvent)
    requires
        state.capture_dirty,
    ensures
        host_step(state, event).capture_dirty || (event is Snapshot && state.pass() is Recapture),
{
}

/// A snapshot shows nothing until the host is ready. Then, while nothing is
/// under way, it captures the child if and only if that changed, and else
/// filters the kept capture again if and only if the filter asked for it.
pub proof fn lemma_snapshots_do_what_is_due(state: FilterState)
    ensures
        state.pass() is NotReady <==> !(state.setup_phase is Ready),
        state.pass() is Recapture <==> state.setup_phase is Ready && !state.filter_task_in_flight
            && state.capture_dirty,
        state.pass() is Refilter <==> state.setup_phase is Ready && !state.filter_task_in_flight
            && !state.capture_dirty && state.refilter_pending,
        state.pass() is Recapture || state.pass() is Refilter <==> !state.filter_task_in_flight
            && state.passing().filter_task_in_flight,
        state.pass() is Recapture ==> !state.passing().capture_dirty
            && state.passing().refilter_pending == state.refilter_pending,
        state.pass() is Refilter ==> !state.passing().refilter_pending,
        state.pass() is NotReady || state.pass() is Unchanged ==> state.passing() == state,
        state.passing().presented == state.presented,
        state.passing().capture_size == state.capture_size,
        state.passing().generation == state.generation,
{
}

/// The end of a task of this life shows its frame, if there is one, and makes
/// way for the next. What the next snapshot does follows from it: a child that
/// changed meanwhile is captured; else an animated filter runs again on the
/// capture it has, and any other is left alone.
pub proof fn lemma_tasks_end_in_a_frame(state: FilterState, frame: Option<bool>)
    requires
        state.setup_phase is Ready,
        state.filter_task_in_flight,
    ensures
        ({
            let after = state.task_done(state.generation, frame);
            &&& !after.filter_task_in_flight
            &&& after.presented == (state.presented || frame is Some)
            &&& state.capture_dirty ==> after.pass() is Recapture
            &&& !state.capture_dirty && frame == Some(true) ==> after.pass() is Refilter
            &&& !state.capture_dirty && frame != Some(true) && !state.refilter_pending
                ==> after.pass() is Unchanged
            &&& !state.capture_dirty && state.refilter_pending ==> after.pass() is Refilter
            &&& (FilterState {
                filter_task_in_flight: true,
                presented: state.presented,
                refilter_pending: state.refilter_pending,
                ..after
            }) == state
        }),
{
}

/// A size that differs from the one before, in width or in height, calls for a
/// capture of that size; the same size calls for nothing.
pub proof fn lemma_new_sizes_are_captured(state: FilterState, size: PixelSize, before: PixelSize)
    ensures
        state.allocated(size).capture_size == Some(size),
        state.capture_size == Some(before) && (before.width != size.width || before.height
            != size.height) ==> state.allocated(size).capture_dirty,
        state.capture_size is None ==> state.allocated(size).capture_dirty,
        state.capture_size == Some(before) && before.width == size.width && before.height
            == size.height ==> state.allocated(size) == state,
        state.capture_dirty ==> state.allocated(size).capture_dirty,
        (FilterState {
            capture_size: state.capture_size,
            capture_dirty: state.capture_dirty,
            ..state.allocated(size)
        }) == state,
{
}

/// The input texture serves every capture of its own width and height, and no
/// other.
pub proof fn lemma_texture_fits_the_capture(state: FilterState, size: PixelSize, next: PixelSize)
    ensures
        !state.needs_texture(size) <==> (state.input_texture matches Some(kept) && kept.width
            == size.width && kept.height == size.height),
        !state.uploaded(size).needs_texture(next) <==> next.width == size.width && next.height
            == size.height,
        (FilterState { input_texture: state.input_texture, ..state.uploaded(size) }) == state,
{
}

/// The bring-up takes one step at a time: the runtime first, then the filter's
/// setup under the generation of the moment, each asked for once. The filter is
/// away while it is set up; a setup that counts makes the host ready and calls
/// for a capture, and one that a teardown overtook is run again.
pub proof fn lemma_filter_bring_up_takes_its_steps(state: FilterState, generation: u64)
    requires
        state.wf(),
    ensures
        !(state.setup_phase is Idle) ==> state.kick() is Nothing && state.kicked() == state,
        state.setup_phase is Idle && !state.runtime_present ==> state.kick() is Runtime
            && state.kicked().setup_phase is RequestingDevice && state.kicked().kick() is Nothing,
        state.setup_phase is Idle && state.runtime_present && state.filter_present ==> state.kick()
            == (Kick::FilterSetup { generation: state.generation })
            && state.kicked().setup_phase is RequestingFilter && !state.kicked().filter_present
            && state.kicked().kick() is Nothing,
        state.with_runtime().runtime_present && state.with_runtime().setup_phase is Idle,
        state.set_up(generation).filter_present,
        state.set_up(generation).setup_phase is Ready <==> generation == state.generation,
        generation == state.generation ==> state.set_up(generation).capture_dirty,
        generation != state.generation && state.runtime_present ==> state.set_up(generation).kick()
            == (Kick::FilterSetup { generation: state.generation }),
{
}

/// A teardown drops all that belongs to the screen and raises the generation;
/// the child, the filter and the runtime stay as they are.
pub proof fn lemma_teardown_drops_the_screen(state: FilterState)
    requires
        state.generation < u64::MAX,
    ensures
        ({
            let after = state.unrealized();
            &&& after.generation == state.generation + 1
            &&& after.capture_dirty && after.capture_size is None && after.input_texture is None
            &&& !after.presented && !after.filter_task_in_flight && !after.refilter_pending
            &&& after.child_present == state.child_present
            &&& after.filter_present == state.filter_present
            &&& after.runtime_present == state.runtime_present
            &&& after.setup_phase == state.setup_phase
        }),
{
}

/// A pass that has no size to work on is given up, and one that has goes on; an
/// empty capture leaves an empty frame, and the next pass free to start.
pub proof fn lemma_passes_without_a_capture_end(state: FilterState)
    ensures
        state.pass_size() is Some <==> state.runtime_present && state.capture_size is Some,
        state.pass_size() matches Some(size) ==> state.capture_size == Some(size)
            && state.measured() == state,
        state.pass_size() is None ==> !state.measured().filter_task_in_flight,
        (FilterState { filter_task_in_flight: state.filter_task_in_flight, ..state.measured() })
            == state,
        !state.emptied().presented && !state.emptied().filter_task_in_flight,
        (FilterState {
            filter_task_in_flight: state.filter_task_in_flight,
            presented: state.presented,
            ..state.emptied()
        }) == state,
{
}

/// A host is as large as its child, and has no extent once it gave that up.
pub proof fn lemma_host_is_as_large_as_its_child(state: FilterState, child: (i32, i32, i32, i32))
    ensures
        state.child_present ==> state.extent(child) == child,
        state.disposed().extent(child) == (-1i32, -1i32, -1i32, -1i32),
        (FilterState { child_present: state.child_present, ..state.disposed() }) == state,
{
}

/// A new host asks for the runtime, then for its filter's setup, and then
/// captures its child; it shows nothing before.
pub proof fn lemma_new_host_comes_to_its_first_capture()
    ensures
        ({
            let host = FilterState { child_present: true, filter_present: true, ..FilterState::empty() };
            let asked = host.kicked();
            let running = asked.with_runtime();
            let setting = running.kicked();
            let ready = setting.set_up(host.generation);
            &&& host.wf()
            &&& host.pass() is NotReady && !host.presented
            &&& host.kick() is Runtime
            &&& running.kick() == (Kick::FilterSetup { generation: host.generation })
            &&& setting.pass() is NotReady
            &&& ready.pass() is Recapture
            &&& ready.pass_size() is None
        }),
{
}

/// A host is captured at as many times its points as the scale factor says,
/// width for width and height for height.
pub proof fn lemma_captures_have_the_hosts_size(
    state: FilterState,
    scale_factor: i32,
    width: i32,
    height: i32,
)
    requires
        scale_factor >= 1,
        width >= 1,
        height >= 1,
        width * scale_factor <= u32::MAX,
        height * scale_factor <= u32::MAX,
    ensures
        state.resized(scale_factor, width, height).capture_size matches Some(size) && size.width
            == width * scale_factor && size.height == height * scale_factor,
        state.resized(scale_factor, width, height).resized(scale_factor, width, height)
            == state.resized(scale_factor, width, height),
{
    lemma_widgets_scale(scale_factor, width, height);
}

/// Work counts under the generation that it started in, and under no other: none
/// that started before a teardown counts after it.
pub proof fn lemma_filter_work_counts_in_its_own_life(
    state: FilterState,
    generation: u64,
    frame: Option<bool>,
)
    requires
        state.generation < u64::MAX,
    ensures
        state.counts(state.generation),
        state.counts(generation) ==> !state.unrealized().counts(generation),
        !state.counts(generation) ==> state.task_done(generation, frame) == state,
        state.counts(generation) <==> state.set_up(generation).setup_phase is Ready,
{
}

} // verus!
