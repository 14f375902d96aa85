use std::time::Duration;

use waterui_gtk::components::graphics::applied_filter::{
    capture_buffer, output_size, FilterState, Kick, Pass, SetupPhase,
};
use waterui_gtk::components::graphics::gl_util::{
    candidates, texture_format_desc, FramebufferFormat, GlProcResolver, LibraryProbe, LookupSource,
    LookupStep,
};
use waterui_gtk::components::graphics::gpu_surface::{
    apply_stretch_sizing, FrameWork, GpuState, PointBox, Presentation, SetupStep,
    FIRST_FRAME_DELTA,
};
use waterui_gtk::components::graphics::picture::RecordingPaintable;
use waterui_gtk::components::graphics::shared_gpu::{
    readback_layout, readback_outcome, texture_layout, unpad_rows, Outcome, PixelSize, RuntimeStep,
    SharedRuntime,
};
use waterui_gtk::double::Double;
use waterui_gtk::geometry::{Point, Size, StretchAxis};
use waterui_gtk::single::Single;

fn single(value: f32) -> Single {
    Single::from_bits(value.to_bits())
}

fn double(value: f64) -> Double {
    Double::from_bits(value.to_bits())
}

fn point(x: f32, y: f32) -> Point {
    Point { x: single(x), y: single(y) }
}

/// A surface that is set up and has rendered nothing yet.
fn ready(now: u64) -> GpuState {
    let mut state = GpuState::new(now);
    assert_eq!(state.ensure_setup(), SetupStep::NeedRuntime);
    assert_eq!(state.runtime_ready(), SetupStep::NeedSetup { generation: 0 });
    assert!(state.setup_finished(0));
    state
}

#[test]
fn doubles_agree_with_the_machine() {
    let mut bits: Vec<u64> = vec![0, 1, 0x10_0000_0000_0000, 0x7fef_ffff_ffff_ffff];
    let mut seed: u64 = 7;
    for exponent in (0..=2046u64).step_by(3) {
        seed = seed.wrapping_mul(6_364_136_223_846_793_005).wrapping_add(1_442_695_040_888_963_407);
        bits.push((exponent << 52) | (seed >> 12));
        bits.push(exponent << 52);
    }
    for value in [0.5f64, 1.5, 2.0, 100.25, 1e-3, 3.0e38, 3.5e38, 1e300, f64::INFINITY, 1.0 / 3.0] {
        bits.push(value.to_bits());
    }
    let negated: Vec<u64> = bits.iter().map(|b| b | (1 << 63)).collect();
    bits.extend(negated);
    bits.push(f64::NAN.to_bits());
    for &a in &bits {
        let value = f64::from_bits(a);
        let narrowed = f32::from_bits(Double::from_bits(a).narrow().to_bits());
        assert!(narrowed == value as f32 || narrowed.is_nan() && value.is_nan());
        assert_eq!(narrowed.is_sign_negative() && !value.is_nan(), value.is_sign_negative() && !value.is_nan());
    }
    for &a in bits.iter().step_by(5) {
        for &b in bits.iter().step_by(7) {
            let exact = f64::from_bits(a) * f64::from_bits(b);
            let ours = f64::from_bits(Double::from_bits(a).times(Double::from_bits(b)).bits);
            assert!(ours.to_bits() == exact.to_bits() || ours.is_nan() && exact.is_nan());
        }
    }
    for i in [0, 1, -1, i32::MAX, i32::MIN, 12345] {
        assert_eq!(f64::from_bits(Double::from_i32(i).bits), f64::from(i));
    }
}

#[test]
fn pixels_of_a_widget_are_never_empty() {
    assert_eq!(PixelSize::from_widget(2, 100, 50), PixelSize { width: 200, height: 100 });
    assert_eq!(PixelSize::from_widget(0, 0, -3), PixelSize { width: 1, height: 1 });
    assert_eq!(
        PixelSize::from_widget(3, i32::MAX, 1),
        PixelSize { width: u32::MAX, height: 3 }
    );
    let layout = texture_layout(PixelSize { width: 3, height: 7 });
    assert_eq!((layout.width, layout.height, layout.stride), (3, 7, 12));
}

#[test]
fn one_bring_up_answers_everyone_in_order() {
    let mut runtime = SharedRuntime::new();
    assert_eq!(runtime.ensure_shared_runtime(4), RuntimeStep::Spawn);
    assert_eq!(runtime.ensure_shared_runtime(2), RuntimeStep::Queued);
    assert_eq!(runtime.ensure_shared_runtime(9), RuntimeStep::Queued);
    assert_eq!(runtime.finish(Outcome::Failed), vec![4, 2, 9]);
    assert_eq!(runtime.ensure_shared_runtime(5), RuntimeStep::Resolve(Outcome::Failed));
    let mut runtime = SharedRuntime::new();
    assert_eq!(runtime.ensure_shared_runtime(1), RuntimeStep::Spawn);
    assert_eq!(runtime.finish(Outcome::Ready), vec![1]);
    assert_eq!(runtime.ensure_shared_runtime(1), RuntimeStep::Resolve(Outcome::Ready));
}

#[test]
fn readbacks_lose_their_padding() {
    let layout = readback_layout(3, 2);
    assert_eq!(
        (layout.bytes_per_row, layout.padded_bytes_per_row, layout.buffer_size),
        (12, wgpu::COPY_BYTES_PER_ROW_ALIGNMENT, 512)
    );
    let mut mapped = vec![0xee_u8; 512];
    let image: Vec<u8> = (0..24).collect();
    mapped[..12].copy_from_slice(&image[..12]);
    mapped[256..268].copy_from_slice(&image[12..]);
    assert_eq!(unpad_rows(&mapped, layout, 2), image);

    let exact = readback_layout(64, 1);
    assert_eq!((exact.bytes_per_row, exact.padded_bytes_per_row), (256, 256));
    let row: Vec<u8> = (0..=255).collect();
    assert_eq!(unpad_rows(&row, exact, 1), row);
    let empty = readback_layout(0, 5);
    assert_eq!((empty.padded_bytes_per_row, empty.buffer_size), (0, 0));
    assert!(unpad_rows(&[], empty, 5).is_empty());
    assert_eq!(readback_layout(65, 4).padded_bytes_per_row, 512);
}

#[test]
fn the_first_failure_of_a_readback_is_reported() {
    let text = |s: &str| s.to_string();
    assert_eq!(readback_outcome(Ok(()), Some(Ok(()))), Ok(()));
    assert_eq!(
        readback_outcome(Err(text("lost")), Some(Err(text("unmapped")))),
        Err(text("lost"))
    );
    assert_eq!(readback_outcome(Ok(()), Some(Err(text("unmapped")))), Err(text("unmapped")));
    assert_eq!(
        readback_outcome(Ok(()), None),
        Err(text("map callback did not run during device poll"))
    );
}

#[test]
fn a_surface_is_set_up_once() {
    let mut state = GpuState::new(FIRST_FRAME_DELTA);
    assert_eq!(
        u128::from(FIRST_FRAME_DELTA),
        Duration::from_secs_f32(1.0 / 60.0).as_nanos()
    );
    assert_eq!(state.pump_frame(true, 1, 10, 10), FrameWork::Idle);
    assert_eq!(state.ensure_setup(), SetupStep::NeedRuntime);
    assert_eq!(state.ensure_setup(), SetupStep::NeedRuntime);
    assert_eq!(state.runtime_ready(), SetupStep::NeedSetup { generation: 0 });
    assert!(!state.routes_input());
    assert_eq!(state.ensure_setup(), SetupStep::Done);
    assert_eq!(state.runtime_ready(), SetupStep::Done);
    assert!(state.setup_finished(0));
    assert!(state.routes_input());
    assert_eq!(state.ensure_setup(), SetupStep::Done);
}

#[test]
fn frames_follow_one_another() {
    let mut state = ready(1_000_000_000);
    let size = PixelSize { width: 20, height: 40 };
    assert_eq!(state.pump_frame(false, 2, 10, 20), FrameWork::Render { size });
    let start = state.begin_frame(size, 1_000_000_500);
    assert!(start.new_target);
    assert_eq!((start.elapsed, start.delta), (500, FIRST_FRAME_DELTA + 500));
    assert_eq!(state.frame_rendered(false), 0);
    assert_eq!(state.pump_frame(true, 2, 10, 20), FrameWork::Idle);
    assert_eq!(state.readback_finished(0, true), Presentation::Present);
    assert_eq!(state.pump_frame(false, 2, 10, 20), FrameWork::Idle);
    assert_eq!(state.pump_frame(true, 2, 10, 20), FrameWork::Render { size });
    let start = state.begin_frame(size, 1_000_000_400);
    assert!(!start.new_target);
    assert_eq!((start.elapsed, start.delta), (400, 0));
    state.frame_rendered(true);
    assert_eq!(state.readback_finished(0, false), Presentation::KeepLast);
    assert_eq!(state.pump_frame(false, 2, 10, 20), FrameWork::Render { size });
    let other = PixelSize { width: 5, height: 40 };
    assert!(state.begin_frame(other, 1_000_000_600).new_target);
    state.frame_rendered(false);
    state.readback_finished(0, true);
    state.resize();
    assert!(state.needs_frame(false));
}

#[test]
fn torn_down_surfaces_show_nothing() {
    let mut state = ready(FIRST_FRAME_DELTA);
    state.begin_frame(PixelSize { width: 1, height: 1 }, FIRST_FRAME_DELTA);
    let generation = state.frame_rendered(false);
    state.unrealize();
    assert_eq!(state.readback_finished(generation, true), Presentation::Discard);
    assert!(state.needs_frame(false));

    let mut state = GpuState::new(FIRST_FRAME_DELTA);
    state.runtime_ready();
    state.unrealize();
    assert!(!state.setup_finished(0));
    assert!(state.routes_input());
    assert!(!state.setup_done);
    assert_eq!(state.ensure_setup(), SetupStep::NeedSetup { generation: 1 });
    assert!(state.setup_in_progress);
    assert!(!state.routes_input());
    assert!(state.setup_finished(1));
    assert!(state.setup_done);
}

#[test]
fn gestures_are_kept_in_pixels() {
    let mut state = GpuState::new(FIRST_FRAME_DELTA);
    assert_eq!(state.gesture.pinch_scale, single(0.0));
    state.pointer_moved(double(1.5), double(2.25), 2);
    assert_eq!(state.pointer.position, Some(point(3.0, 4.5)));
    state.pressed(double(0.1), double(-1.0), 0);
    assert_eq!(state.pointer.hit, Some(point(0.1, -1.0)));
    state.pointer_left();
    assert_eq!(state.pointer.position, None);

    state.drag_begin();
    assert!(state.pan_active && state.gesture.active);
    state.drag_update(double(10.0), double(-4.0), 3);
    assert_eq!(state.gesture.pan_offset, point(30.0, -12.0));
    state.drag_end();
    assert!(!state.pan_active && !state.gesture.active);
    assert_eq!(state.gesture.pan_offset, point(0.0, 0.0));

    let area = PointBox { x: 10, y: -7, width: 5, height: 16_777_217 };
    state.pinch(double(1.25), Some(area), 2, 77);
    let center = |start: i32, length: i32| (length as f32).mul_add(0.5, start as f32) * 2.0;
    assert_eq!(state.gesture.pinch_center, Some(point(center(10, 5), center(-7, 16_777_217))));
    assert_eq!(state.gesture.pinch_scale, single(1.25));
    state.drag_begin();
    state.drag_end();
    assert!(state.gesture.active);
    state.pinch(double(2.0), None, 1, 78);
    assert_eq!(state.gesture.pinch_center, None);

    state.released(1);
    assert_eq!(state.pointer.hit, None);
    assert!(!state.gesture.double_tap);
    state.released(2);
    assert!(state.gesture.double_tap && !state.gesture.active);
    assert_eq!(state.gesture.pinch_scale, single(1.0));
    assert_eq!(state.last_pinch_update, None);
}

#[test]
fn surfaces_request_what_they_do_not_stretch() {
    let measured = Size { width: single(10.2), height: single(-0.5) };
    let none = apply_stretch_sizing(StretchAxis::Neither, measured);
    assert_eq!((none.request_width, none.request_height, none.requests), (11, 0, true));
    let wide = apply_stretch_sizing(StretchAxis::Horizontal, measured);
    assert_eq!((wide.hexpand, wide.vexpand), (true, false));
    assert_eq!((wide.request_width, wide.request_height), (-1, 0));
    assert!(!apply_stretch_sizing(StretchAxis::Both, measured).requests);
    let main = apply_stretch_sizing(StretchAxis::MainAxis, measured);
    assert_eq!((main.hexpand, main.vexpand, main.request_width), (false, false, 11));
}

#[test]
fn drawings_are_rasterised_at_their_pixels() {
    let size = Size { width: single(24.5), height: single(10.4) };
    let mut paintable = RecordingPaintable::new(size, double(2.0));
    assert_eq!((paintable.intrinsic_width(), paintable.intrinsic_height()), (25, 10));
    let first = paintable.snapshot(double(16.0), double(8.3));
    assert_eq!(first.size, PixelSize { width: 32, height: 17 });
    assert!(first.fresh);
    assert!(!paintable.snapshot(double(16.0), double(8.4)).fresh);
    assert!(paintable.snapshot(double(16.5), double(8.4)).fresh);
    paintable.recording_changed();
    assert!(paintable.snapshot(double(16.5), double(8.4)).fresh);
    paintable.scale_changed(double(1.0));
    assert_eq!(paintable.pixel_extent(double(16.5)), 17);
    assert_eq!(paintable.pixel_extent(double(0.2)), 1);
    assert_eq!(paintable.pixel_extent(double(-5.0)), 1);
    assert_eq!(paintable.pixel_extent(double(f64::NAN)), 1);
    assert_eq!(paintable.checked_pixel_extent(double(65535.4)), Some(65535));
    assert_eq!(paintable.checked_pixel_extent(double(65535.5)), None);
    assert_eq!(paintable.checked_pixel_extent(double(f64::INFINITY)), None);
    assert_eq!(paintable.checked_pixel_extent(double(f64::NEG_INFINITY)), Some(1));
}

#[test]
fn filters_run_on_what_changed() {
    let mut host = FilterState::render_applied_filter();
    assert_eq!(host.snapshot_filtered(), Pass::NotReady);
    assert_eq!(host.ensure_ready(), Kick::Runtime);
    assert_eq!(host.ensure_ready(), Kick::Nothing);
    host.runtime_ready();
    assert_eq!(host.ensure_ready(), Kick::FilterSetup { generation: 0 });
    assert_eq!(host.setup_phase, SetupPhase::RequestingFilter);
    host.filter_set_up(0);
    assert_eq!(host.snapshot_filtered(), Pass::Recapture);
    assert_eq!(host.runtime_parts(), None);
    host.size_allocate(2, 64, 64);
    let size = PixelSize { width: 128, height: 128 };
    assert_eq!(host.snapshot_filtered(), Pass::Recapture);
    assert_eq!(host.runtime_parts(), Some(size));
    assert!(host.get_or_create(size));
    assert!(!host.get_or_create(size));
    assert_eq!(host.snapshot_filtered(), Pass::Unchanged);
    assert!(host.task_finished(0, Some(true)));
    assert!(host.presented);
    assert_eq!(host.snapshot_filtered(), Pass::Refilter);
    assert!(host.task_finished(0, Some(false)));
    assert_eq!(host.snapshot_filtered(), Pass::Unchanged);
    host.size_allocate(2, 64, 64);
    assert_eq!(host.snapshot_filtered(), Pass::Unchanged);
    host.invalidate_contents();
    assert_eq!(host.snapshot_filtered(), Pass::Recapture);
    host.capture_empty();
    assert!(!host.presented);
    assert_eq!(host.measure((1, 2, 3, 4)), (1, 2, 3, 4));
    assert!(host.dispose());
    assert!(!host.dispose());
    assert_eq!(host.measure((1, 2, 3, 4)), (-1, -1, -1, -1));
    assert_eq!(output_size(0, 7), PixelSize { width: 1, height: 7 });
    assert_eq!(capture_buffer(PixelSize { width: 3, height: 5 }), (12, 60));
}

#[test]
fn torn_down_filters_show_nothing() {
    let mut host = FilterState::render_applied_filter();
    host.ensure_ready();
    host.runtime_ready();
    host.ensure_ready();
    host.unrealize();
    host.filter_set_up(0);
    assert_eq!(host.setup_phase, SetupPhase::Idle);
    assert_eq!(host.ensure_ready(), Kick::FilterSetup { generation: 1 });
    host.filter_set_up(1);
    host.size_allocate(1, 4, 4);
    assert_eq!(host.snapshot_filtered(), Pass::Recapture);
    host.unrealize();
    assert!(!host.task_finished(1, Some(true)));
    assert!(!host.presented && !host.refilter_pending);
    assert!(host.capture_dirty);
}

#[test]
fn captures_wait_for_the_task_of_this_life() {
    let mut host = FilterState::render_applied_filter();
    host.ensure_ready();
    host.runtime_ready();
    host.ensure_ready();
    host.filter_set_up(0);
    host.size_allocate(1, 4, 4);
    assert_eq!(host.snapshot_filtered(), Pass::Recapture);
    host.unrealize();
    host.size_allocate(1, 4, 4);
    assert_eq!(host.snapshot_filtered(), Pass::Recapture);
    // The capture of the life before ends late.
    assert!(!host.task_finished(0, Some(true)));
    assert!(host.filter_task_in_flight);
    host.invalidate_contents();
    assert_eq!(host.snapshot_filtered(), Pass::Unchanged);
    assert!(host.task_finished(1, Some(false)));
    assert_eq!(host.snapshot_filtered(), Pass::Recapture);
}

#[test]
fn entry_points_come_from_the_first_source() {
    assert_eq!(candidates(true), vec!["libGLESv2.so.2", "libEGL.so.1"]);
    assert_eq!(candidates(false), vec!["libGL.so.1", "libOpenGL.so.0", "libEGL.so.1"]);
    let found = |loaded, egl, glx| LibraryProbe { loaded, egl, glx };
    let desktop = GlProcResolver::new(
        false,
        &vec![found(false, true, true), found(true, false, true), found(true, true, true)],
    );
    assert_eq!(desktop.libs, vec![1, 2]);
    assert_eq!((desktop.egl_get_proc, desktop.glx_get_proc), (None, Some(1)));
    assert_eq!(desktop.load("glFoo", 0, 0), LookupStep::Ask(LookupSource::Library(1)));
    assert_eq!(desktop.load("glFoo", 1, 0), LookupStep::Ask(LookupSource::Library(2)));
    assert_eq!(desktop.load("glFoo", 1, 99), LookupStep::Done(99));
    assert_eq!(desktop.load("glFoo", 2, 0), LookupStep::Ask(LookupSource::Glx(1)));
    assert_eq!(desktop.load("glFoo", 3, 0), LookupStep::Done(0));
    assert_eq!(desktop.load("gl\0Foo", 0, 0), LookupStep::Done(0));
    let es = GlProcResolver::new(true, &vec![found(true, false, true), found(true, true, false)]);
    assert_eq!((es.egl_get_proc, es.glx_get_proc), (Some(1), None));
    assert_eq!(es.load("glFoo", 2, 0), LookupStep::Ask(LookupSource::Egl(1)));
    assert_eq!(es.load("glFoo", 3, 7), LookupStep::Done(7));
}

#[test]
fn formats_are_known_to_the_runtime() {
    let desc = |format| {
        let d = texture_format_desc(format);
        (d.internal, d.external, d.data_type)
    };
    assert_eq!(
        desc(FramebufferFormat::Rgba8Unorm),
        (glow::RGBA8, glow::RGBA, glow::UNSIGNED_BYTE)
    );
    assert_eq!(
        desc(FramebufferFormat::Rgba8UnormSrgb),
        (glow::SRGB8_ALPHA8, glow::RGBA, glow::UNSIGNED_BYTE)
    );
    assert_eq!(
        desc(FramebufferFormat::Rgba16Float),
        (glow::RGBA16F, glow::RGBA, glow::HALF_FLOAT)
    );
    assert_eq!(
        desc(FramebufferFormat::Rgb10a2Unorm),
        (glow::RGB10_A2, glow::RGBA, glow::UNSIGNED_INT_2_10_10_10_REV)
    );
    assert_eq!(desc(FramebufferFormat::Rgba8Unorm), (0x8058, 0x1908, 0x1401));
}
