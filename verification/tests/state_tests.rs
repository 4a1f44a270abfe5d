use anodium::cursor::{cached_texture, effective_cursor, remember_texture, CursorImage};
use anodium::geometry::{Point, Rectangle, Size};
use anodium::resolver::{Connector, DeviceResources, Encoder, Interface, RawMode};
use anodium::state::{
    AttemptOutcome, BackendState, InitialRenderAction, RenderAction, RenderError, SessionAction,
    SessionSignal, TemporaryCause, RETRY_INTERVAL_MS,
};

fn raw(w: u16, h: u16) -> RawMode {
    RawMode { width: w, height: h, vrefresh: 60 }
}

/// A device with `n` connected connectors, each with its own encoder and
/// one compatible CRTC.
fn simple_resources(n: usize) -> DeviceResources {
    let mut connectors = Vec::new();
    let mut encoders = Vec::new();
    let mut crtcs = Vec::new();
    let mut i: usize = 0;
    while i < n {
        connectors.push(Connector {
            handle: 1 + i as u32,
            connected: true,
            interface: Interface::HdmiA,
            interface_id: 1 + i as u32,
            phys_size_mm: None,
            encoders: vec![11 + i as u32],
            modes: vec![raw(1920, 1080), raw(1280, 720)],
        });
        encoders.push(Encoder { handle: 11 + i as u32, possible_crtcs: 1u32 << i });
        crtcs.push(100 + i as u32);
        i += 1;
    }
    DeviceResources { connectors, encoders, crtcs }
}

fn choices(n: usize) -> Vec<Option<usize>> {
    (0..n).map(|_| Some(0)).collect()
}

fn added(state: &mut BackendState, device_id: u64, n: usize, primary: bool) -> Vec<u32> {
    state.device_added(device_id, &simple_resources(n), &choices(n), &Vec::new(), vec![], primary)
}

#[test]
fn surfaces_match_tagged_outputs_one_to_one() {
    let mut state = BackendState::new();
    let initial = added(&mut state, 1, 2, false);
    assert_eq!(initial, vec![100, 101]);
    assert_eq!(state.surface_count(1), Some(2));
    // One output per surface, tagged with the device and its CRTC.
    assert_eq!(state.outputs().len(), 2);
    assert!(state.outputs().find_by_tag(1, 100).is_some());
    assert!(state.outputs().find_by_tag(1, 101).is_some());

    added(&mut state, 2, 1, false);
    assert_eq!(state.surface_count(2), Some(1));
    assert_eq!(state.outputs().len(), 3);

    state.device_removed(1);
    assert_eq!(state.surface_count(1), None);
    assert_eq!(state.surface_count(2), Some(1));
    assert_eq!(state.outputs().len(), 1);
}

#[test]
fn removed_device_leaves_no_backward_tags() {
    let mut state = BackendState::new();
    added(&mut state, 1, 2, false);
    added(&mut state, 2, 1, false);
    state.device_removed(1);
    assert_eq!(state.outputs().find_by_tag(1, 100), None);
    assert_eq!(state.outputs().find_by_tag(1, 101), None);
    assert!(state.outputs().find_by_tag(2, 100).is_some());
    assert!(!state.contains_device(1));
    assert!(state.contains_device(2));
}

#[test]
fn first_pipeline_registers_named_output() {
    // One connected connector, one possible (encoder, CRTC) pair, two
    // modes; the policy picks the first.
    let mut state = BackendState::new();
    let initial = added(&mut state, 1, 1, false);
    assert_eq!(initial, vec![100]);
    assert_eq!(state.outputs().len(), 1);
    let o = state.outputs().find_by_name("HDMI-A-1").expect("output registered");
    let g = o.geometry();
    assert_eq!(g.loc, Point { x: 0, y: 0 });
    assert_eq!(g.size, Size { w: 1920, h: 1080 });
    assert_eq!(o.scale_milli(), 1000);
    assert_eq!(o.current_mode().refresh, 60_000);
}

#[test]
fn primary_role_is_a_single_slot() {
    let mut state = BackendState::new();
    assert_eq!(state.primary_device(), None);
    added(&mut state, 1, 1, true);
    assert_eq!(state.primary_device(), Some(1));
    added(&mut state, 2, 1, false);
    assert_eq!(state.primary_device(), Some(1));
    state.device_removed(1);
    assert_eq!(state.primary_device(), None);
    state.device_removed(2);
    assert_eq!(state.primary_device(), None);
}

#[test]
fn initial_render_queues_the_first_buffer() {
    let mut state = BackendState::new();
    added(&mut state, 1, 1, false);
    assert!(!state.surface_state(1, 100).unwrap().pending);
    let act = state.initial_render(1, 100, Ok(()));
    assert_eq!(act, InitialRenderAction::Done);
    assert!(state.surface_state(1, 100).unwrap().pending);
}

#[test]
fn initial_render_failure_classification() {
    let mut state = BackendState::new();
    added(&mut state, 1, 1, false);
    let requeue = state.initial_render(
        1,
        100,
        Err(RenderError::TemporaryFailure(TemporaryCause::Other)),
    );
    assert_eq!(requeue, InitialRenderAction::Requeue);
    assert!(!state.surface_state(1, 100).unwrap().pending);
    let fatal = state.initial_render(1, 100, Err(RenderError::ContextLost));
    assert_eq!(fatal, InitialRenderAction::Fatal);
    let ignored = state.initial_render(1, 100, Err(RenderError::AlreadySwapped));
    assert_eq!(ignored, InitialRenderAction::Done);
    // A deferred attempt firing after teardown is a no-op.
    state.device_removed(1);
    assert_eq!(state.initial_render(1, 100, Ok(())), InitialRenderAction::Done);
}

#[test]
fn render_never_double_queues_an_in_flight_surface() {
    let mut state = BackendState::new();
    added(&mut state, 1, 1, false);
    state.initial_render(1, 100, Ok(()));
    assert!(state.surface_state(1, 100).unwrap().pending);
    // A render issued before the frame completed is rejected, and the
    // surface stays mapped with its buffer still in flight.
    let r = state.render_surface(1, 100, false, AttemptOutcome::Success);
    assert_eq!(r, Err(RenderError::AlreadySwapped));
    assert!(state.surface_state(1, 100).unwrap().pending);
    // Once the completion signal arrives, the next render goes through.
    let r2 = state.render_surface(1, 100, true, AttemptOutcome::Success);
    assert_eq!(r2, Ok(true));
    assert!(state.surface_state(1, 100).unwrap().pending);
}

#[test]
fn frame_counter_advances_on_composed_frames() {
    let mut state = BackendState::new();
    added(&mut state, 1, 1, false);
    assert_eq!(state.surface_state(1, 100).unwrap().frames, 0);
    state.render_surface(1, 100, true, AttemptOutcome::Success);
    state.render_surface(1, 100, true, AttemptOutcome::Success);
    assert_eq!(state.surface_state(1, 100).unwrap().frames, 2);
    // A failed composition does not count a frame.
    state.render_surface(
        1,
        100,
        true,
        AttemptOutcome::ComposeError(RenderError::TemporaryFailure(TemporaryCause::Other)),
    );
    assert_eq!(state.surface_state(1, 100).unwrap().frames, 2);
}

#[test]
fn device_inactive_failure_schedules_no_timer() {
    let mut state = BackendState::new();
    added(&mut state, 1, 1, false);
    let outcome =
        AttemptOutcome::ComposeError(RenderError::TemporaryFailure(TemporaryCause::DeviceInactive));
    let actions = state.udev_render(1, Some(100), true, &vec![outcome], 5);
    assert_eq!(actions, vec![]);
    // The surface remains mapped.
    assert!(state.surface_state(1, 100).is_some());
    assert!(state.outputs().find_by_tag(1, 100).is_some());
    // Permission denial is equally benign.
    let outcome = AttemptOutcome::QueueError(RenderError::TemporaryFailure(
        TemporaryCause::PermissionDenied,
    ));
    let actions = state.udev_render(1, Some(100), true, &vec![outcome], 5);
    assert_eq!(actions, vec![]);
}

#[test]
fn transient_failure_reschedules_at_sixty_hertz() {
    let mut state = BackendState::new();
    added(&mut state, 1, 1, false);
    let outcome =
        AttemptOutcome::QueueError(RenderError::TemporaryFailure(TemporaryCause::Other));
    let actions = state.udev_render(1, Some(100), true, &vec![outcome], 5);
    assert_eq!(
        actions,
        vec![RenderAction::ScheduleRetry { device_id: 1, crtc: 100, delay_ms: 16 }]
    );
    assert_eq!(RETRY_INTERVAL_MS, 16);
}

#[test]
fn context_loss_is_fatal() {
    let mut state = BackendState::new();
    added(&mut state, 1, 1, false);
    let outcome = AttemptOutcome::ComposeError(RenderError::ContextLost);
    let actions = state.udev_render(1, Some(100), true, &vec![outcome], 5);
    assert_eq!(actions, vec![RenderAction::Fatal { device_id: 1, crtc: 100 }]);
}

#[test]
fn whole_device_render_broadcasts_per_surface() {
    let mut state = BackendState::new();
    added(&mut state, 1, 2, false);
    let outcomes = vec![AttemptOutcome::Success, AttemptOutcome::Success];
    let actions = state.udev_render(1, None, false, &outcomes, 42);
    assert_eq!(
        actions,
        vec![RenderAction::SendFrames { time_ms: 42 }, RenderAction::SendFrames { time_ms: 42 }]
    );
    assert_eq!(state.surface_state(1, 100).unwrap().frames, 1);
    assert_eq!(state.surface_state(1, 101).unwrap().frames, 1);
}

#[test]
fn context_loss_aborts_a_whole_device_pass() {
    let mut state = BackendState::new();
    added(&mut state, 1, 2, false);
    let outcomes = vec![
        AttemptOutcome::ComposeError(RenderError::ContextLost),
        AttemptOutcome::Success,
    ];
    let actions = state.udev_render(1, None, false, &outcomes, 0);
    assert_eq!(actions, vec![RenderAction::Fatal { device_id: 1, crtc: 100 }]);
    // The second surface was never touched.
    assert_eq!(state.surface_state(1, 101).unwrap().frames, 0);
}

#[test]
fn render_after_teardown_is_a_no_op() {
    let mut state = BackendState::new();
    added(&mut state, 1, 1, false);
    state.device_removed(1);
    // The retry timer fires after the surface is gone: nothing happens.
    let actions = state.udev_render(1, Some(100), false, &vec![AttemptOutcome::Success], 0);
    assert_eq!(actions, vec![]);
    // Same for an unknown CRTC on a live device.
    added(&mut state, 2, 1, false);
    let actions = state.udev_render(2, Some(999), false, &vec![AttemptOutcome::Success], 0);
    assert_eq!(actions, vec![]);
}

#[test]
fn device_change_rebuilds_surfaces_and_outputs() {
    let mut state = BackendState::new();
    added(&mut state, 1, 2, false);
    assert_eq!(state.surface_count(1), Some(2));
    // The monitor set shrank to one connector.
    let initial = state.device_changed(1, &simple_resources(1), &choices(1), &Vec::new());
    assert_eq!(initial, vec![100]);
    assert_eq!(state.surface_count(1), Some(1));
    assert_eq!(state.outputs().len(), 1);
    assert!(state.outputs().find_by_tag(1, 100).is_some());
    assert_eq!(state.outputs().find_by_tag(1, 101), None);
    // Changing an unknown device does nothing.
    let none = state.device_changed(9, &simple_resources(1), &choices(1), &Vec::new());
    assert_eq!(none, vec![]);
}

#[test]
fn session_activation_requests_idle_rerenders() {
    let mut state = BackendState::new();
    added(&mut state, 1, 1, false);
    added(&mut state, 2, 1, false);
    let acts = state.session_event(SessionSignal::ActivateSession);
    assert_eq!(
        acts,
        vec![
            SessionAction::ScheduleIdleRender { device_id: 1 },
            SessionAction::ScheduleIdleRender { device_id: 2 },
        ]
    );
    let acts = state.session_event(SessionSignal::ActivateDevice { device_id: 1 });
    assert_eq!(acts.len(), 2);
    let acts = state.session_event(SessionSignal::Other);
    assert_eq!(acts, vec![]);
}

#[test]
fn dmabuf_formats_are_the_union_over_devices() {
    let mut state = BackendState::new();
    state.device_added(1, &simple_resources(0), &choices(0), &Vec::new(), vec![7, 8], false);
    state.device_added(2, &simple_resources(0), &choices(0), &Vec::new(), vec![8, 9], false);
    assert_eq!(state.dmabuf_formats(), vec![7, 8, 8, 9]);
    // Import goes to the first device whose context accepts the buffer.
    assert_eq!(state.import_dmabuf(&vec![false, true]), Some(2));
    assert_eq!(state.import_dmabuf(&vec![true, true]), Some(1));
    assert_eq!(state.import_dmabuf(&vec![false, false]), None);
}

#[test]
fn cursor_resets_when_the_client_surface_dies() {
    assert_eq!(effective_cursor(CursorImage::ClientSurface, true), CursorImage::ClientSurface);
    assert_eq!(effective_cursor(CursorImage::ClientSurface, false), CursorImage::SystemDefault);
    assert_eq!(effective_cursor(CursorImage::SystemDefault, false), CursorImage::SystemDefault);
}

#[test]
fn cursor_textures_are_cached_per_bitmap() {
    let mut cache: Vec<(u64, u64)> = Vec::new();
    assert_eq!(cached_texture(&cache, 5), None);
    remember_texture(&mut cache, 5, 500);
    remember_texture(&mut cache, 6, 600);
    assert_eq!(cached_texture(&cache, 5), Some(500));
    assert_eq!(cached_texture(&cache, 6), Some(600));
    assert_eq!(cached_texture(&cache, 7), None);
}

#[test]
fn pointer_hit_test() {
    let g = Rectangle { loc: Point { x: 10, y: 10 }, size: Size { w: 100, h: 50 } };
    assert!(g.contains(Point { x: 10, y: 10 }));
    assert!(g.contains(Point { x: 109, y: 59 }));
    assert!(!g.contains(Point { x: 110, y: 30 }));
    assert!(!g.contains(Point { x: 50, y: 60 }));
    assert!(!g.contains(Point { x: 9, y: 30 }));
}
