//! The GPU runtime that all widgets of a process share, and the layout of the
//! pixels that are read back from it.

use vstd::arithmetic::div_mod::*;
use vstd::prelude::*;

verus! {

/// A size in device pixels.
#[derive(Clone, Copy, Debug, PartialEq, Eq, Structural)]
pub struct PixelSize {
    pub width: u32,
    pub height: u32,
}

/// How the one bring-up of the runtime ended.
#[derive(Clone, Copy, Debug, PartialEq, Eq, Structural)]
pub enum Outcome {
    Ready,
    Failed,
}

/// Where the bring-up of the runtime stands. Those that wait for it are known
/// by a number.
#[derive(Debug)]
pub enum SharedRuntime {
    /// Nobody asked yet.
    NotStarted,
    /// The bring-up is under way; these wait for it, in the order they came.
    Pending(Vec<u64>),
    /// It ended, and every later caller gets the same answer.
    Settled(Outcome),
}

/// What a request for the runtime leads to.
#[derive(Clone, Copy, Debug, PartialEq, Eq, Structural)]
pub enum RuntimeStep {
    /// The caller gets its answer now.
    Resolve(Outcome),
    /// The caller waits with the others.
    Queued,
    /// The caller waits, and the bring-up has to be started.
    Spawn,
}

/// What [`SharedRuntime`] stands for.
#[verifier::ext_equal]
pub struct RuntimeView {
    pub asked: bool,
    pub waiters: Seq<u64>,
    pub outcome: Option<Outcome>,
}

impl View for SharedRuntime {
    type V = RuntimeView;

    open spec fn view(&self) -> RuntimeView {
        match self {
            SharedRuntime::NotStarted => RuntimeView {
                asked: false,
                waiters: seq![],
                outcome: None,
            },
            SharedRuntime::Pending(waiters) => RuntimeView {
                asked: true,
                waiters: waiters@,
                outcome: None,
            },
            SharedRuntime::Settled(outcome) => RuntimeView {
                asked: true,
                waiters: seq![],
                outcome: Some(*outcome),
            },
        }
    }
}

impl RuntimeView {
    pub open spec fn initial() -> RuntimeView {
        RuntimeView { asked: false, waiters: seq![], outcome: None }
    }

    /// The state after `waiter` asked for the runtime.
    pub open spec fn requested(self, waiter: u64) -> RuntimeView {
        if self.outcome is Some {
            self
        } else {
            RuntimeView { asked: true, waiters: self.waiters.push(waiter), ..self }
        }
    }

    /// What a request leads to.
    pub open spec fn step(self) -> RuntimeStep {
        match self.outcome {
            Some(outcome) => RuntimeStep::Resolve(outcome),
            None => if self.asked {
                RuntimeStep::Queued
            } else {
                RuntimeStep::Spawn
            },
        }
    }

    /// The state after the bring-up ended.
    pub open spec fn settled(self, outcome: Outcome) -> RuntimeView {
        RuntimeView { asked: true, waiters: seq![], outcome: Some(outcome) }
    }
}

impl SharedRuntime {
    /// The state before anyone asked.
    pub fn new() -> (r: SharedRuntime)
        ensures
            r@ == RuntimeView::initial(),
    {
        SharedRuntime::NotStarted
    }

    /// `waiter` asks for the runtime. Callers queue behind the first request,
    /// which alone starts the bring-up; once it ended, well or not, everyone
    /// is answered at once.
    pub fn ensure_shared_runtime(&mut self, waiter: u64) -> (r: RuntimeStep)
        ensures
            final(self)@ == old(self)@.requested(waiter),
            r == old(self)@.step(),
    {
        match self {
            SharedRuntime::Settled(outcome) => RuntimeStep::Resolve(*outcome),
            SharedRuntime::Pending(waiters) => {
                waiters.push(waiter);
                RuntimeStep::Queued
            },
            SharedRuntime::NotStarted => {
                let mut waiters: Vec<u64> = Vec::new();
                waiters.push(waiter);
                *self = SharedRuntime::Pending(waiters);
                RuntimeStep::Spawn
            },
        }
    }

    /// The bring-up ended. Gives back those that waited for it, to be answered
    /// in this order.
    pub fn finish(&mut self, outcome: Outcome) -> (r: Vec<u64>)
        requires
            old(self)@.asked,
            old(self)@.outcome is None,
        ensures
            final(self)@ == old(self)@.settled(outcome),
            r@ == old(self)@.waiters,
    {
        let mut previous: SharedRuntime = SharedRuntime::Settled(outcome);
        std::mem::swap(self, &mut previous);
        match previous {
            SharedRuntime::Pending(waiters) => waiters,
            _ => Vec::new(),
        }
    }
}

/// What can happen to the shared runtime.
pub enum RuntimeEvent {
    /// Someone asks for it.
    Request { waiter: u64 },
    /// The bring-up ends.
    Finish { outcome: Outcome },
}

/// What has happened so far: the state, how often the bring-up was started,
/// who was answered and with what.
#[verifier::ext_equal]
pub struct RuntimeHistory {
    pub state: RuntimeView,
    pub spawned: nat,
    pub answered: Seq<(u64, Outcome)>,
}

/// The history of a sequence of events. The end of a bring-up that is not
/// under way does not occur, and counts as nothing.
pub open spec fn runtime_history(events: Seq<RuntimeEvent>) -> RuntimeHistory
    decreases events.len(),
{
    if events.len() == 0 {
        RuntimeHistory { state: RuntimeView::initial(), spawned: 0, answered: seq![] }
    } else {
        let before = runtime_history(events.drop_last());
        match events.last() {
            RuntimeEvent::Request { waiter } => RuntimeHistory {
                state: before.state.requested(waiter),
                spawned: if before.state.step() == RuntimeStep::Spawn {
                    before.spawned + 1
                } else {
                    before.spawned
                },
                answered: match before.state.step() {
                    RuntimeStep::Resolve(outcome) => before.answered.push((waiter, outcome)),
                    _ => before.answered,
                },
            },
            RuntimeEvent::Finish { outcome } => if before.state.asked
                && before.state.outcome is None {
                RuntimeHistory {
                    state: before.state.settled(outcome),
                    answered: before.answered + before.state.waiters.map_values(
                        |waiter: u64| (waiter, outcome),
                    ),
                    ..before
                }
            } else {
                before
            },
        }
    }
}

/// Those that asked, in order.
pub open spec fn requesters(events: Seq<RuntimeEvent>) -> Seq<u64>
    decreases events.len(),
{
    if events.len() == 0 {
        seq![]
    } else {
        match events.last() {
            RuntimeEvent::Request { waiter } => requesters(events.drop_last()).push(waiter),
            RuntimeEvent::Finish { .. } => requesters(events.drop_last()),
        }
    }
}

/// Whatever happens: the bring-up starts once, with the first request; every
/// caller is answered once, in the order of asking, or still waits; and all
/// answers are the same.
pub proof fn lemma_each_request_is_answered_once(events: Seq<RuntimeEvent>)
    ensures
        ({
            let h = runtime_history(events);
            &&& h.spawned == if requesters(events).len() > 0 {
                1nat
            } else {
                0nat
            }
            &&& h.answered.map_values(|a: (u64, Outcome)| a.0) + h.state.waiters == requesters(
                events,
            )
            &&& h.state.asked == (requesters(events).len() > 0)
            &&& forall|i: int|
                0 <= i < h.answered.len() ==> h.state.outcome == Some((#[trigger] h.answered[i]).1)
            &&& h.state.outcome is Some ==> h.state.waiters.len() == 0
            &&& h.state.outcome is Some ==> h.state.asked
        }),
    decreases events.len(),
{
    let h = runtime_history(events);
    if events.len() > 0 {
        lemma_each_request_is_answered_once(events.drop_last());
        let before = runtime_history(events.drop_last());
        let first = |a: (u64, Outcome)| a.0;
        match events.last() {
            RuntimeEvent::Request { waiter } => {
                match before.state.outcome {
                    Some(outcome) => {
                        assert(h.answered.map_values(first) =~= before.answered.map_values(
                            first,
                        ).push(waiter));
                        assert(before.answered.map_values(first) + before.state.waiters
                            =~= before.answered.map_values(first));
                    },
                    None => {
                        assert(before.answered.map_values(first) + before.state.waiters.push(
                            waiter,
                        ) =~= (before.answered.map_values(first) + before.state.waiters).push(
                            waiter,
                        ));
                        if before.answered.len() > 0 {
                            assert(before.state.outcome == Some(before.answered[0].1));
                        }
                    },
                }
            },
            RuntimeEvent::Finish { outcome } => {
                if before.state.asked && before.state.outcome is None {
                    if before.answered.len() > 0 {
                        assert(before.state.outcome == Some(before.answered[0].1));
                    }
                    assert(h.answered.map_values(first) =~= before.answered.map_values(first)
                        + before.state.waiters);
                }
            },
        }
    }
    assert(h.answered.map_values(|a: (u64, Outcome)| a.0) + h.state.waiters =~= requesters(events));
}

/// `a * b`, at most the largest `u32`.
pub open spec fn saturated_product(a: int, b: int) -> u32 {
    if a * b > u32::MAX {
        u32::MAX
    } else {
        (a * b) as u32
    }
}

/// `a * b`, at most the largest `u32`.
pub fn saturating_product(a: u32, b: u32) -> (r: u32)
    ensures
        r == saturated_product(a as int, b as int),
{
    assert(0 <= a * b <= u32::MAX * u32::MAX) by (nonlinear_arith)
        requires
            0 <= a <= u32::MAX,
            0 <= b <= u32::MAX,
    ;
    let product: u64 = a as u64 * b as u64;
    if product > 0xffff_ffff {
        0xffff_ffff
    } else {
        product as u32
    }
}

/// A length of at least one.
pub open spec fn at_least_one(n: i32) -> u32 {
    if n < 1 {
        1u32
    } else {
        n as u32
    }
}

impl PixelSize {
    /// The device pixels of a widget of `width` by `height` at a scale factor;
    /// never empty.
    pub open spec fn of_widget(scale_factor: i32, width: i32, height: i32) -> PixelSize {
        let scale = at_least_one(scale_factor) as int;
        PixelSize {
            width: saturated_product(at_least_one(width) as int, scale),
            height: saturated_product(at_least_one(height) as int, scale),
        }
    }

    /// The device pixels of a widget of `width` by `height` at a scale factor;
    /// never empty.
    pub fn from_widget(scale_factor: i32, width: i32, height: i32) -> (r: PixelSize)
        ensures
            r == PixelSize::of_widget(scale_factor, width, height),
            r.width >= 1,
            r.height >= 1,
    {
        let scale: u32 = if scale_factor < 1 { 1 } else { scale_factor as u32 };
        let w: u32 = if width < 1 { 1 } else { width as u32 };
        let h: u32 = if height < 1 { 1 } else { height as u32 };
        assert(w * scale >= 1) by (nonlinear_arith)
            requires
                w >= 1,
                scale >= 1,
        ;
        assert(h * scale >= 1) by (nonlinear_arith)
            requires
                h >= 1,
                scale >= 1,
        ;
        PixelSize { width: saturating_product(w, scale), height: saturating_product(h, scale) }
    }
}

/// The memory of a texture of packed four-byte pixels, as the toolkit takes it.
#[derive(Clone, Copy, Debug, PartialEq, Eq, Structural)]
pub struct TextureLayout {
    pub width: i32,
    pub height: i32,
    pub stride: usize,
}

/// The layout of a texture of `size` with packed rows of four-byte pixels.
pub fn texture_layout(size: PixelSize) -> (r: TextureLayout)
    requires
        size.width <= i32::MAX,
        size.height <= i32::MAX,
        size.width * 4 <= usize::MAX,
    ensures
        r.width == size.width,
        r.height == size.height,
        r.stride == size.width * 4,
{
    TextureLayout {
        width: size.width as i32,
        height: size.height as i32,
        stride: size.width as usize * 4,
    }
}

/// How a texture of four-byte pixels lies in the buffer it is read back to.
#[derive(Clone, Copy, Debug, PartialEq, Eq, Structural)]
pub struct ReadbackLayout {
    /// The bytes of a row.
    pub bytes_per_row: u32,
    /// The bytes from one row to the next.
    pub padded_bytes_per_row: u32,
    /// The bytes of the whole buffer.
    pub buffer_size: u64,
}

/// `wgpu::COPY_BYTES_PER_ROW_ALIGNMENT`, the number that the distance between
/// rows has to be a multiple of in a copy from a texture: 256.
#[verifier::external_body]
fn row_alignment() -> (r: u32)
    ensures
        r == 256,
{
    wgpu::COPY_BYTES_PER_ROW_ALIGNMENT
}

/// The distance between rows of `width` four-byte pixels: the row's bytes up
/// to the next multiple of the alignment.
pub open spec fn padded_row(width: int) -> int {
    (width * 4 + 255) / 256 * 256
}

/// The bytes of a row of a readback, those from one row to the next, and those
/// of the whole.
pub open spec fn readback_rows(width: u32, height: u32) -> (int, int, int) {
    (width * 4, padded_row(width as int), padded_row(width as int) * height)
}

/// A readback has four bytes for each pixel, rows that start at multiples of the
/// alignment, and room for all of its rows and no more.
pub proof fn lemma_readback_holds_the_image(width: u32, height: u32)
    ensures
        readback_rows(width, height).0 == 4 * width,
        readback_rows(width, height).1 % 256 == 0,
        readback_rows(width, height).0 <= readback_rows(width, height).1 < readback_rows(
            width,
            height,
        ).0 + 256,
        readback_rows(width, height).2 == readback_rows(width, height).1 * height,
{
}

/// The layout of a readback of `width` by `height` pixels.
pub fn readback_layout(width: u32, height: u32) -> (r: ReadbackLayout)
    requires
        width <= 0x3fff_ffc0,
    ensures
        r.bytes_per_row == readback_rows(width, height).0,
        r.padded_bytes_per_row == readback_rows(width, height).1,
        r.buffer_size == readback_rows(width, height).2,
        r.bytes_per_row == width * 4,
        r.padded_bytes_per_row == padded_row(width as int),
        r.padded_bytes_per_row % 256 == 0,
        r.bytes_per_row <= r.padded_bytes_per_row < r.bytes_per_row + 256,
        r.buffer_size == r.padded_bytes_per_row * height,
{
    let alignment: u32 = row_alignment();
    let bytes_per_row: u32 = saturating_product(width, 4);
    let rows: u64 = (bytes_per_row as u64 + (alignment as u64 - 1)) / alignment as u64;
    let padded: u64 = rows * alignment as u64;
    assert(0 <= padded * height <= 0xffff_ff00 * 0xffff_ffff) by (nonlinear_arith)
        requires
            0 <= padded <= 0xffff_ff00,
            0 <= height <= 0xffff_ffff,
    ;
    ReadbackLayout {
        bytes_per_row,
        padded_bytes_per_row: padded as u32,
        buffer_size: padded * height as u64,
    }
}

/// The rows of an image without the padding between them.
pub open spec fn unpadded(mapped: Seq<u8>, row: nat, padded: nat, height: nat) -> Seq<u8> {
    Seq::new(row * height, |i: int| mapped[i / (row as int) * padded + i % (row as int)])
}

/// The tightly packed pixels of a readback.
pub fn unpad_rows(mapped: &[u8], layout: ReadbackLayout, height: u32) -> (r: Vec<u8>)
    requires
        layout.bytes_per_row <= layout.padded_bytes_per_row,
        layout.buffer_size == layout.padded_bytes_per_row * height,
        mapped@.len() == layout.buffer_size,
    ensures
        r@ == unpadded(
            mapped@,
            layout.bytes_per_row as nat,
            layout.padded_bytes_per_row as nat,
            height as nat,
        ),
{
    let row: usize = layout.bytes_per_row as usize;
    let padded: usize = layout.padded_bytes_per_row as usize;
    let ghost wanted = unpadded(mapped@, row as nat, padded as nat, height as nat);
    let mut pixels: Vec<u8> = Vec::new();
    let mut y: u32 = 0;
    let mut start: usize = 0;
    let ghost limit = mapped@.len();
    assert(mapped.len() == limit);
    proof {
        assert(row * 0 == 0);
        assert(0 * padded == 0);
    }
    while y < height
        invariant
            y <= height,
            row <= padded,
            limit == mapped@.len(),
            limit <= usize::MAX,
            limit == padded * height,
            wanted == unpadded(mapped@, row as nat, padded as nat, height as nat),
            start == y * padded,
            pixels@.len() == row * y,
            pixels@ == wanted.take((row * y) as int),
        decreases height - y,
    {
        let mut x: usize = 0;
        let ghost done = row * y;
        proof {
            assert(y * padded + padded <= padded * height) by (nonlinear_arith)
                requires
                    y + 1 <= height,
                    padded >= 0,
            ;
            assert(row * y + row <= row * height) by (nonlinear_arith)
                requires
                    y + 1 <= height,
                    row >= 0,
            ;
            assert(row * (y + 1) == row * y + row) by (nonlinear_arith);
            assert((y + 1) * padded == y * padded + padded) by (nonlinear_arith);
        }
        while x < row
            invariant
                y < height,
                x <= row,
                row <= padded,
                limit == mapped@.len(),
                limit <= usize::MAX,
                start + padded <= limit,
                start == y * padded,
                wanted == unpadded(mapped@, row as nat, padded as nat, height as nat),
                done == row * y,
                done + row <= row * height,
                pixels@ == wanted.take(done + x),
            decreases row - x,
        {
            pixels.push(mapped[start + x]);
            proof {
                let i = done + x;
                assert(y * row == row * y) by (nonlinear_arith);
                lemma_fundamental_div_mod_converse(i, row as int, y as int, x as int);
                assert(wanted[i] == mapped@[y * padded + x]);
                assert(wanted.take(i + 1) =~= wanted.take(i).push(wanted[i]));
            }
            x = x + 1;
        }
        start = start + padded;
        y = y + 1;
    }
    assert(wanted.take((row * y) as int) =~= wanted);
    pixels
}

/// Reading an image back gives the image, whatever lies between its rows: the
/// rows of `image`, each copied to the start of a padded row, come out as they
/// went in.
pub proof fn lemma_unpadding_recovers_the_image(
    image: Seq<u8>,
    mapped: Seq<u8>,
    row: nat,
    padded: nat,
    height: nat,
)
    requires
        image.len() == row * height,
        forall|y: int, x: int|
            0 <= y < height && 0 <= x < row ==> #[trigger] mapped[y * padded + x] == image[y * row
                + x],
    ensures
        unpadded(mapped, row, padded, height) == image,
{
    let r = unpadded(mapped, row, padded, height);
    assert forall|i: int| 0 <= i < r.len() implies r[i] == image[i] by {
        assert(row > 0) by (nonlinear_arith)
            requires
                0 <= i < row * height,
        ;
        let y = i / (row as int);
        let x = i % (row as int);
        lemma_fundamental_div_mod(i, row as int);
        assert(0 <= y < height) by (nonlinear_arith)
            requires
                0 <= i < row * height,
                i == row * y + x,
                0 <= x < row,
        ;
        assert(y * row == row * y) by (nonlinear_arith);
        assert(mapped[y * padded + x] == image[y * row + x]);
    }
    assert(r =~= image);
}

/// What is said when the map callback never ran.
pub fn missing_callback() -> (r: String)
    ensures
        r@ == "map callback did not run during device poll"@,
{
    String::from_str("map callback did not run during device poll")
}

/// What a step says of its failure, if it failed.
pub open spec fn failure(result: Result<(), String>) -> Option<Seq<char>> {
    match result {
        Ok(_) => None,
        Err(error) => Some(error@),
    }
}

/// What is said of a readback whose device poll and whose map failed so, or not;
/// the map says nothing where its callback never ran.
pub open spec fn first_failure(
    poll: Option<Seq<char>>,
    map: Option<Option<Seq<char>>>,
) -> Option<Seq<char>> {
    match (poll, map) {
        (Some(error), _) => Some(error),
        (None, Some(result)) => result,
        (None, None) => Some("map callback did not run during device poll"@),
    }
}

/// The pixels can be taken if and only if the poll and the map succeeded. A
/// failed poll is reported before a failed map, and a map that never ran is a
/// failure too.
pub proof fn lemma_readback_needs_poll_and_map(
    poll: Option<Seq<char>>,
    map: Option<Option<Seq<char>>>,
)
    ensures
        first_failure(poll, map) is None <==> poll is None && map == Some(None::<Seq<char>>),
        poll is Some ==> first_failure(poll, map) == poll,
        poll is None && map is Some ==> first_failure(poll, map) == map->0,
{
}

/// Whether the pixels of a readback can be taken: the device poll and then the
/// map have to have succeeded, and the map's callback has to have run. The
/// first that failed is reported.
pub fn readback_outcome(poll: Result<(), String>, map: Option<Result<(), String>>) -> (r: Result<
    (),
    String,
>)
    ensures
        failure(r) == first_failure(failure(poll), match map {
            Some(result) => Some(failure(result)),
            None => None,
        }),
        match poll {
            Err(error) => r == Err::<(), String>(error),
            Ok(_) => match map {
                Some(Err(error)) => r == Err::<(), String>(error),
                Some(Ok(_)) => r is Ok,
                None => r matches Err(error) && error@
                    == "map callback did not run during device poll"@,
            },
        },
{
    match poll {
        Err(error) => Err(error),
        Ok(_) => match map {
            Some(result) => result,
            None => Err(missing_callback()),
        },
    }
}

/// A request is answered at once if the bring-up ended, starts it if nobody
/// asked before, and waits otherwise; whoever waits does so behind those that
/// came before. The end of the bring-up leaves nobody waiting.
pub proof fn lemma_requests_wait_in_line(runtime: RuntimeView, waiter: u64, outcome: Outcome)
    ensures
        runtime.outcome matches Some(known) ==> runtime.step() == RuntimeStep::Resolve(known)
            && runtime.requested(waiter) == runtime,
        runtime.outcome is None ==> {
            &&& runtime.step() is Spawn <==> !runtime.asked
            &&& runtime.step() is Queued <==> runtime.asked
            &&& runtime.requested(waiter).waiters == runtime.waiters.push(waiter)
            &&& runtime.requested(waiter).asked
            &&& runtime.requested(waiter).outcome is None
        },
        runtime.settled(outcome).step() == RuntimeStep::Resolve(outcome),
        runtime.settled(outcome).waiters.len() == 0,
        RuntimeView::initial().step() is Spawn,
{
}

/// A product is kept where it fits, and is the largest number otherwise.
pub proof fn lemma_products_saturate(a: int, b: int)
    requires
        0 <= a,
        0 <= b,
    ensures
        a * b <= u32::MAX ==> saturated_product(a, b) == a * b,
        a * b >= u32::MAX ==> saturated_product(a, b) == u32::MAX,
{
    assert(a * b >= 0) by (nonlinear_arith)
        requires
            a >= 0,
            b >= 0,
    ;
}

/// A widget has as many times its points in pixels as the scale factor says, in
/// width and in height alike; points or a factor below one count as one.
pub proof fn lemma_widgets_scale(scale_factor: i32, width: i32, height: i32)
    ensures
        ({
            let size = PixelSize::of_widget(scale_factor, width, height);
            let turned = PixelSize::of_widget(scale_factor, height, width);
            &&& size.width >= 1 && size.height >= 1
            &&& scale_factor >= 1 && width >= 1 && width * scale_factor <= u32::MAX ==> size.width
                == width * scale_factor
            &&& scale_factor >= 1 && height >= 1 && height * scale_factor <= u32::MAX
                ==> size.height == height * scale_factor
            &&& scale_factor >= 1 && width >= 1 && width * scale_factor > u32::MAX ==> size.width
                == u32::MAX
            &&& scale_factor >= 1 && width < 1 ==> size.width == scale_factor
            &&& scale_factor >= 1 && height < 1 ==> size.height == scale_factor
            &&& scale_factor < 1 && width >= 1 ==> size.width == width
            &&& scale_factor < 1 && height >= 1 ==> size.height == height
            &&& scale_factor < 1 && width < 1 ==> size.width == 1
            &&& turned.width == size.height && turned.height == size.width
        }),
{
    let scale = at_least_one(scale_factor) as int;
    let w = at_least_one(width) as int;
    let h = at_least_one(height) as int;
    assert(w * scale >= 1 && h * scale >= 1) by (nonlinear_arith)
        requires
            w >= 1,
            h >= 1,
            scale >= 1,
    ;
    assert(w * 1 == w && h * 1 == h && 1 * scale == scale);
}

/// The distance between rows is the least multiple of the alignment that holds
/// a row.
pub proof fn lemma_rows_are_padded_to_the_next_multiple(width: int, multiple: int)
    requires
        width >= 0,
    ensures
        padded_row(width) % 256 == 0,
        padded_row(width) >= width * 4,
        multiple % 256 == 0 && multiple >= width * 4 ==> padded_row(width) <= multiple,
{
}

} // verus!
