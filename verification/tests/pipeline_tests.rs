use corrosionwm::formats::{
    DrmFormat, FeedbackTranche, PlaneInfo, PlaneSet, get_surface_dmabuf_feedback, intersect_formats,
    union_formats,
};
use corrosionwm::layout::OutputMode;
use corrosionwm::pipeline::{
    ConnectorInfo, Corrosion, DrmEventMeta, DrmEventTime, EdidIdentity, FrameFinishAction,
    NextStep, RenderOutcomeAction, RendererChoice, SurfaceComposition, SurfaceHardwareInfo,
    choose_primary_gpu, driver_drops_overlay_planes, resolve_render_node,
};
use corrosionwm::scan::{ConnectorReport, DrmScanner, ScanEvent};
use corrosionwm::schedule::{
    CompletionDecision, SwapError, classify_swap_error, presentation_stamp, repaint_delay_micros,
    retry_delay_micros,
};

fn fmt(code: u32) -> DrmFormat {
    DrmFormat { code, modifier: 0 }
}

fn mode(width: i32, height: i32, refresh_hz: u64, preferred: bool) -> OutputMode {
    OutputMode { width, height, refresh_hz, preferred }
}

fn connector(id: u64, modes: Vec<OutputMode>) -> ConnectorInfo {
    ConnectorInfo {
        connector: id,
        interface_name: "HDMI-A".to_string(),
        interface_id: id,
        modes,
        physical_size: Some((600, 340)),
        edid: Some(EdidIdentity { make: "ACME".to_string(), model: "Panel".to_string() }),
    }
}

fn hardware(driver: &str) -> SurfaceHardwareInfo {
    SurfaceHardwareInfo {
        surface_handle: 42,
        format_code: 0x34325241,
        planes: PlaneSet {
            primary: PlaneInfo { handle: 1, formats: vec![fmt(1)] },
            overlay: vec![PlaneInfo { handle: 2, formats: vec![fmt(2)] }],
        },
        driver_name: driver.to_string(),
        driver_desc: driver.to_string(),
        primary_formats: Some(vec![fmt(1), fmt(2)]),
        render_formats: Some(vec![fmt(2), fmt(3)]),
    }
}

/// A pipeline with one device (node 1, render node 1) registered.
fn one_device_state() -> Corrosion {
    let mut state = Corrosion::new(1, false);
    state.device_added(1, 7, Some(1));
    state
}

#[test]
fn repaint_delay_same_gpu_60hz() {
    // 60% of one 60 Hz refresh interval: floor(1_000_000 / 60 * 0.6) us.
    assert_eq!(repaint_delay_micros(60, true), 10_000);
}

#[test]
fn repaint_delay_cross_gpu_is_immediate() {
    assert_eq!(repaint_delay_micros(60, false), 0);
}

#[test]
fn retry_delay_is_one_frame() {
    assert_eq!(retry_delay_micros(60), 16_666);
}

#[test]
fn swap_error_classification() {
    assert_eq!(classify_swap_error(SwapError::AlreadySwapped), CompletionDecision::Reschedule);
    assert_eq!(classify_swap_error(SwapError::DeviceInactive), CompletionDecision::Halt);
    assert_eq!(classify_swap_error(SwapError::PermissionDenied), CompletionDecision::Reschedule);
    assert_eq!(classify_swap_error(SwapError::Temporary), CompletionDecision::Reschedule);
    assert_eq!(classify_swap_error(SwapError::ContextLost), CompletionDecision::Fatal);
}

#[test]
fn presentation_stamp_flags() {
    let hw = presentation_stamp(Some(777), 123);
    assert_eq!(hw.time, 777);
    assert!(hw.flags.vsync && hw.flags.hw_clock && hw.flags.hw_completion);

    let sw = presentation_stamp(None, 123);
    assert_eq!(sw.time, 123);
    assert!(sw.flags.vsync && !sw.flags.hw_clock && !sw.flags.hw_completion);
}

#[test]
fn format_set_operations() {
    let a = vec![fmt(1), fmt(2)];
    let b = vec![fmt(2), fmt(3)];
    let u = union_formats(&a, &b);
    assert_eq!(u, vec![fmt(1), fmt(2), fmt(3)]);
    let i = intersect_formats(&a, &b);
    assert_eq!(i, vec![fmt(2)]);
}

#[test]
fn feedback_tranche_sets() {
    // Primary {A,B}, render {B,C}, planes {A}: the scanout tranche is the
    // plane set intersected with everything supported, {A}; the fallback
    // tranche is the render set {B,C}.
    let planes = PlaneSet {
        primary: PlaneInfo { handle: 1, formats: vec![fmt(1)] },
        overlay: vec![],
    };
    let fb = get_surface_dmabuf_feedback(
        10,
        20,
        30,
        Some(vec![fmt(1), fmt(2)]),
        Some(vec![fmt(2), fmt(3)]),
        &planes,
    )
    .unwrap();

    assert_eq!(fb.scanout_feedback.main_device, 10);
    assert_eq!(fb.scanout_feedback.tranches.len(), 2);
    let first: &FeedbackTranche = &fb.scanout_feedback.tranches[0];
    assert!(first.scanout);
    assert_eq!(first.target_device, 30);
    assert_eq!(first.formats, vec![fmt(1)]);
    let second: &FeedbackTranche = &fb.scanout_feedback.tranches[1];
    assert!(!second.scanout);
    assert_eq!(second.target_device, 20);
    assert_eq!(second.formats, vec![fmt(2), fmt(3)]);

    assert_eq!(fb.render_feedback.tranches.len(), 1);
    assert_eq!(fb.render_feedback.tranches[0].formats, vec![fmt(2), fmt(3)]);
}

#[test]
fn feedback_missing_query_aborts() {
    let planes = PlaneSet {
        primary: PlaneInfo { handle: 1, formats: vec![fmt(1)] },
        overlay: vec![],
    };
    assert!(get_surface_dmabuf_feedback(10, 20, 30, None, Some(vec![fmt(1)]), &planes).is_none());
    assert!(get_surface_dmabuf_feedback(10, 20, 30, Some(vec![fmt(1)]), None, &planes).is_none());
}

#[test]
fn feedback_negotiation_is_deterministic() {
    let planes = PlaneSet {
        primary: PlaneInfo { handle: 1, formats: vec![fmt(1), fmt(3)] },
        overlay: vec![PlaneInfo { handle: 2, formats: vec![fmt(4)] }],
    };
    let a = get_surface_dmabuf_feedback(
        10,
        20,
        30,
        Some(vec![fmt(1), fmt(2)]),
        Some(vec![fmt(3)]),
        &planes,
    )
    .unwrap();
    let b = get_surface_dmabuf_feedback(
        10,
        20,
        30,
        Some(vec![fmt(1), fmt(2)]),
        Some(vec![fmt(3)]),
        &planes,
    )
    .unwrap();
    assert_eq!(a.scanout_feedback.tranches.len(), b.scanout_feedback.tranches.len());
    for (ta, tb) in a.scanout_feedback.tranches.iter().zip(b.scanout_feedback.tranches.iter()) {
        assert_eq!(ta.target_device, tb.target_device);
        assert_eq!(ta.scanout, tb.scanout);
        assert_eq!(ta.formats, tb.formats);
    }
}

#[test]
fn scanner_diffs_connects_and_disconnects() {
    let mut scanner = DrmScanner::new();
    let report = vec![
        ConnectorReport { connector: 100, connected: true, crtc: Some(5) },
        ConnectorReport { connector: 101, connected: true, crtc: None },
        ConnectorReport { connector: 102, connected: false, crtc: None },
    ];
    let events = scanner.scan_connectors(&report);
    // The connector without an assigned controller is skipped.
    assert_eq!(events, vec![ScanEvent::Connected { connector: 100, crtc: 5 }]);

    // The next scan reports everything gone: one disconnect, with the
    // controller recorded at connection time.
    let events = scanner.scan_connectors(&Vec::new());
    assert_eq!(events, vec![ScanEvent::Disconnected { connector: 100, crtc: 5 }]);
}

#[test]
fn scanner_keeps_stable_connectors_silent() {
    let mut scanner = DrmScanner::new();
    let report = vec![ConnectorReport { connector: 100, connected: true, crtc: Some(5) }];
    scanner.scan_connectors(&report);
    let events = scanner.scan_connectors(&report);
    assert_eq!(events, Vec::<ScanEvent>::new());
}

#[test]
fn outputs_form_horizontal_strip() {
    // Two connectors with preferred modes 1920x1080 and 1280x1024 map at
    // (0, 0) and (1920, 0).
    let mut state = one_device_state();
    state.connector_connected(1, 10, connector(0, vec![mode(1920, 1080, 60, true)]), hardware("x"));
    state.connector_connected(1, 11, connector(1, vec![mode(1280, 1024, 60, true)]), hardware("x"));
    assert_eq!(state.space.outputs.len(), 2);
    assert_eq!((state.space.outputs[0].x, state.space.outputs[0].y), (0, 0));
    assert_eq!((state.space.outputs[1].x, state.space.outputs[1].y), (1920, 0));
}

#[test]
fn output_name_derives_from_interface() {
    let mut state = one_device_state();
    state.connector_connected(1, 10, connector(3, vec![mode(1920, 1080, 60, true)]), hardware("x"));
    assert_eq!(state.space.outputs[0].name(), "HDMI-A-3");

    let mut wide = one_device_state();
    wide.connector_connected(1, 10, connector(107, vec![mode(1920, 1080, 60, true)]), hardware("x"));
    assert_eq!(wide.space.outputs[0].name(), "HDMI-A-107");
}

#[test]
fn preferred_mode_wins_over_first() {
    let mut state = one_device_state();
    state.connector_connected(
        1,
        10,
        connector(0, vec![mode(800, 600, 60, false), mode(1920, 1080, 60, true)]),
        hardware("x"),
    );
    assert_eq!(state.space.outputs[0].mode.width, 1920);
}

#[test]
fn first_mode_is_fallback_without_preferred_flag() {
    let mut state = one_device_state();
    state.connector_connected(
        1,
        10,
        connector(0, vec![mode(800, 600, 60, false), mode(1920, 1080, 60, false)]),
        hardware("x"),
    );
    assert_eq!(state.space.outputs[0].mode.width, 800);
}

#[test]
fn missing_edid_defaults_to_unknown() {
    let mut state = one_device_state();
    let mut conn = connector(0, vec![mode(1920, 1080, 60, true)]);
    conn.edid = None;
    conn.physical_size = None;
    state.connector_connected(1, 10, conn, hardware("x"));
    assert_eq!(state.space.outputs[0].make, "unknown");
    assert_eq!(state.space.outputs[0].model, "unknown");
    assert_eq!(state.space.outputs[0].physical_width, 0);
    assert_eq!(state.space.outputs[0].physical_height, 0);
}

#[test]
fn nvidia_loses_overlay_planes() {
    assert!(driver_drops_overlay_planes("NVIDIA Corporation", "card"));
    assert!(driver_drops_overlay_planes("card", "NVidia something"));
    assert!(!driver_drops_overlay_planes("amdgpu", "AMD card"));

    let mut state = one_device_state();
    state.connector_connected(
        1,
        10,
        connector(0, vec![mode(1920, 1080, 60, true)]),
        hardware("nvidia-drm"),
    );
    match &state.backend_data.backends[0].surfaces[0].compositor {
        SurfaceComposition::Compositor { planes, .. } => {
            assert!(planes.overlay.is_empty());
            assert_eq!(planes.primary.formats, vec![fmt(1)]);
        }
        SurfaceComposition::Surface { .. } => panic!("expected the hardware path"),
    }
}

#[test]
fn override_forces_buffered_surface() {
    let mut state = Corrosion::new(1, true);
    state.device_added(1, 7, Some(1));
    state.connector_connected(1, 10, connector(0, vec![mode(1920, 1080, 60, true)]), hardware("x"));
    match &state.backend_data.backends[0].surfaces[0].compositor {
        SurfaceComposition::Surface { supported_codes, .. } => {
            assert_eq!(supported_codes, &vec![0x34324241u32, 0x34325241u32]);
        }
        SurfaceComposition::Compositor { .. } => panic!("expected the buffered path"),
    }
}

#[test]
fn at_most_one_surface_per_controller() {
    let mut state = one_device_state();
    state.connector_connected(1, 10, connector(0, vec![mode(1920, 1080, 60, true)]), hardware("x"));
    // A second connect for the same controller is refused until teardown.
    state.connector_connected(1, 10, connector(9, vec![mode(640, 480, 75, true)]), hardware("x"));
    assert_eq!(state.backend_data.backends[0].surfaces.len(), 1);
    assert_eq!(state.space.outputs.len(), 1);
    assert_eq!(state.space.outputs[0].mode.width, 1920);
}

#[test]
fn disconnect_is_idempotent() {
    let mut state = one_device_state();
    state.connector_connected(1, 10, connector(0, vec![mode(1920, 1080, 60, true)]), hardware("x"));
    assert_eq!(state.live_globals.len(), 1);

    state.connector_disconnected(1, 0, 10);
    assert_eq!(state.backend_data.backends[0].surfaces.len(), 0);
    assert_eq!(state.space.outputs.len(), 0);
    assert_eq!(state.live_globals.len(), 0);
    let next_global = state.next_global;

    // The second disconnect finds nothing: no panic, no second revocation.
    state.connector_disconnected(1, 0, 10);
    assert_eq!(state.backend_data.backends[0].surfaces.len(), 0);
    assert_eq!(state.space.outputs.len(), 0);
    assert_eq!(state.live_globals.len(), 0);
    assert_eq!(state.next_global, next_global);
}

#[test]
fn device_changed_reports_scan_events() {
    let mut state = one_device_state();
    let report = vec![ConnectorReport { connector: 100, connected: true, crtc: Some(10) }];
    let events = state.device_changed(1, &report);
    assert_eq!(events, vec![ScanEvent::Connected { connector: 100, crtc: 10 }]);
}

#[test]
fn device_removed_tears_everything_down() {
    let mut state = one_device_state();
    let report = vec![ConnectorReport { connector: 100, connected: true, crtc: Some(10) }];
    state.device_changed(1, &report);
    state.connector_connected(1, 10, connector(0, vec![mode(1920, 1080, 60, true)]), hardware("x"));
    assert_eq!(state.space.outputs.len(), 1);
    assert_eq!(state.live_globals.len(), 1);

    state.device_removed(1);
    assert!(state.backend_data.backends.is_empty());
    assert_eq!(state.space.outputs.len(), 0);
    assert_eq!(state.live_globals.len(), 0);
}

#[test]
fn missing_feedback_is_filled_in_later() {
    let mut state = one_device_state();
    let mut hw = hardware("x");
    hw.primary_formats = None;  // the primary GPU query failed at connect time
    state.connector_connected(1, 10, connector(0, vec![mode(1920, 1080, 60, true)]), hw);
    assert!(state.backend_data.backends[0].surfaces[0].dmabuf_feedback.is_none());

    let planes = PlaneSet {
        primary: PlaneInfo { handle: 1, formats: vec![fmt(1)] },
        overlay: vec![],
    };
    state.update_surface_feedback(
        1,
        10,
        Some(vec![fmt(1), fmt(2)]),
        Some(vec![fmt(2), fmt(3)]),
        &planes,
    );
    let fb = state.backend_data.backends[0].surfaces[0].dmabuf_feedback.as_ref().unwrap();
    assert_eq!(fb.scanout_feedback.tranches[0].formats, vec![fmt(1)]);

    // A surface that already carries feedback keeps it.
    state.update_surface_feedback(1, 10, Some(vec![fmt(9)]), Some(vec![fmt(9)]), &planes);
    let fb = state.backend_data.backends[0].surfaces[0].dmabuf_feedback.as_ref().unwrap();
    assert_eq!(fb.scanout_feedback.tranches[0].formats, vec![fmt(1)]);
}

#[test]
fn frame_finish_success_presents_and_rearms() {
    let mut state = one_device_state();
    state.connector_connected(1, 10, connector(0, vec![mode(1920, 1080, 60, true)]), hardware("x"));
    // Queue a damaged frame with feedback token 55.
    let action = state.render_surface(1, 10, true, 55);
    assert_eq!(action, RenderOutcomeAction::Queued);

    let meta = DrmEventMeta { time: DrmEventTime::Monotonic { micros: 900 }, sequence: 3 };
    let r: FrameFinishAction = state.frame_finish(1, 10, Ok(()), Some(meta), 1000);
    let p = r.presented.expect("a queued frame with a token is presented");
    assert_eq!(p.feedback_token, 55);
    assert_eq!(p.stamp.time, 900);
    assert!(p.stamp.flags.hw_clock && p.stamp.flags.hw_completion && p.stamp.flags.vsync);
    assert_eq!(p.sequence, 3);
    assert_eq!(p.refresh_hz, 60);
    // Same-GPU path: 60% of one refresh interval.
    assert_eq!(r.next, NextStep::Timer { delay_micros: 10_000 });
}

#[test]
fn frame_finish_realtime_stamp_falls_back_to_software_clock() {
    let mut state = one_device_state();
    state.connector_connected(1, 10, connector(0, vec![mode(1920, 1080, 60, true)]), hardware("x"));
    state.render_surface(1, 10, true, 55);
    let meta = DrmEventMeta { time: DrmEventTime::Realtime { micros: 900 }, sequence: 3 };
    let r = state.frame_finish(1, 10, Ok(()), Some(meta), 1000);
    let p = r.presented.unwrap();
    assert_eq!(p.stamp.time, 1000);
    assert!(p.stamp.flags.vsync && !p.stamp.flags.hw_clock && !p.stamp.flags.hw_completion);
}

#[test]
fn frame_finish_cross_gpu_rearms_immediately() {
    let mut state = Corrosion::new(1, false);
    state.device_added(2, 7, Some(3));  // render node 3 differs from primary 1
    state.connector_connected(2, 10, connector(0, vec![mode(1920, 1080, 60, true)]), hardware("x"));
    state.render_surface(2, 10, true, 55);
    let r = state.frame_finish(2, 10, Ok(()), None, 1000);
    assert_eq!(r.next, NextStep::Timer { delay_micros: 0 });
}

#[test]
fn no_damage_reschedules_after_one_frame() {
    let mut state = one_device_state();
    state.connector_connected(1, 10, connector(0, vec![mode(1920, 1080, 60, true)]), hardware("x"));
    let action = state.render_surface(1, 10, false, 55);
    // One full refresh interval, not the 0.6-scaled delay.
    assert_eq!(action, RenderOutcomeAction::RetryTimer { delay_micros: 16_666 });
}

#[test]
fn device_inactive_halts_without_teardown() {
    let mut state = one_device_state();
    state.connector_connected(1, 10, connector(0, vec![mode(1920, 1080, 60, true)]), hardware("x"));
    let r = state.frame_finish(1, 10, Err(SwapError::DeviceInactive), None, 1000);
    assert_eq!(r.next, NextStep::Halt);
    assert!(r.presented.is_none());
    // The surface entry survives untouched.
    assert_eq!(state.backend_data.backends[0].surfaces.len(), 1);
    assert_eq!(state.space.outputs.len(), 1);
}

#[test]
fn context_lost_is_fatal() {
    let mut state = one_device_state();
    state.connector_connected(1, 10, connector(0, vec![mode(1920, 1080, 60, true)]), hardware("x"));
    let r = state.frame_finish(1, 10, Err(SwapError::ContextLost), None, 1000);
    assert_eq!(r.next, NextStep::Fatal);
}

#[test]
fn transient_errors_reschedule() {
    let mut state = one_device_state();
    state.connector_connected(1, 10, connector(0, vec![mode(1920, 1080, 60, true)]), hardware("x"));
    for err in [SwapError::AlreadySwapped, SwapError::PermissionDenied, SwapError::Temporary] {
        let r = state.frame_finish(1, 10, Err(err), None, 1000);
        assert_eq!(r.next, NextStep::Timer { delay_micros: 10_000 });
    }
}

#[test]
fn renderer_choice_follows_gpu_locality() {
    let mut state = one_device_state();
    state.connector_connected(1, 10, connector(0, vec![mode(1920, 1080, 60, true)]), hardware("x"));
    assert_eq!(state.prepare_render(1, 10), Some(RendererChoice::Single { render_node: 1 }));
    assert_eq!(state.prepare_render(1, 99), None);

    let mut cross = Corrosion::new(1, false);
    cross.device_added(2, 7, Some(3));
    cross.connector_connected(2, 10, connector(0, vec![mode(1920, 1080, 60, true)]), hardware("x"));
    assert_eq!(
        cross.prepare_render(2, 10),
        Some(RendererChoice::Cross { primary: 1, render_node: 3, format_code: 0x34325241 })
    );
}

#[test]
fn cursor_cache_is_append_only() {
    let mut state = one_device_state();
    assert_eq!(state.cursor_texture(5), None);
    state.insert_cursor_texture(5, 500);
    assert_eq!(state.cursor_texture(5), Some(500));
    // An image already cached keeps its first texture.
    state.insert_cursor_texture(5, 501);
    assert_eq!(state.cursor_texture(5), Some(500));
    assert_eq!(state.backend_data.cursor_images.len(), 1);
}

#[test]
fn primary_gpu_choice() {
    assert_eq!(choose_primary_gpu(Some(9), &vec![1, 2]), Some(9));
    assert_eq!(choose_primary_gpu(None, &vec![1, 2]), Some(1));
    assert_eq!(choose_primary_gpu(None, &Vec::new()), None);
}

#[test]
fn render_node_fallback() {
    assert_eq!(resolve_render_node(4, Some(8)), 8);
    assert_eq!(resolve_render_node(4, None), 4);
}
