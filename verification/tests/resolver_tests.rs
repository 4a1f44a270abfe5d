use anodium::resolver::{
    interface_label, mode_of, output_name, scan_connectors, Connector, DeviceResources, Encoder,
    FailedAttempt, Interface, RawMode,
};

fn raw(w: u16, h: u16, hz: u32) -> RawMode {
    RawMode { width: w, height: h, vrefresh: hz }
}

fn connector(handle: u32, connected: bool, encoders: Vec<u32>, modes: Vec<RawMode>) -> Connector {
    Connector {
        handle,
        connected,
        interface: Interface::HdmiA,
        interface_id: 1,
        phys_size_mm: Some((600, 340)),
        encoders,
        modes,
    }
}

#[test]
fn single_connector_single_pipeline() {
    let res = DeviceResources {
        connectors: vec![connector(1, true, vec![11], vec![raw(1920, 1080, 60), raw(1280, 720, 60)])],
        encoders: vec![Encoder { handle: 11, possible_crtcs: 0b1 }],
        crtcs: vec![100],
    };
    let r = scan_connectors(&res, &vec![Some(0)], &Vec::new());
    assert_eq!(r.len(), 1);
    assert_eq!(r[0].connector, 0);
    assert_eq!(r[0].encoder, 11);
    assert_eq!(r[0].crtc, 100);
    assert_eq!(r[0].mode_idx, 0);
}

#[test]
fn one_crtc_never_drives_two_connectors() {
    // Two connected connectors compete for the single CRTC: the first one
    // in resource order wins, the other stays unassigned.
    let res = DeviceResources {
        connectors: vec![
            connector(1, true, vec![11], vec![raw(800, 600, 60)]),
            connector(2, true, vec![11], vec![raw(800, 600, 60)]),
        ],
        encoders: vec![Encoder { handle: 11, possible_crtcs: 0b1 }],
        crtcs: vec![100],
    };
    let r = scan_connectors(&res, &vec![Some(0), Some(0)], &Vec::new());
    assert_eq!(r.len(), 1);
    assert_eq!(r[0].connector, 0);
    assert_eq!(r[0].crtc, 100);
}

#[test]
fn two_connectors_get_distinct_crtcs() {
    let res = DeviceResources {
        connectors: vec![
            connector(1, true, vec![11], vec![raw(800, 600, 60)]),
            connector(2, true, vec![12], vec![raw(800, 600, 60)]),
        ],
        encoders: vec![
            Encoder { handle: 11, possible_crtcs: 0b11 },
            Encoder { handle: 12, possible_crtcs: 0b11 },
        ],
        crtcs: vec![100, 101],
    };
    let r = scan_connectors(&res, &vec![Some(0), Some(0)], &Vec::new());
    assert_eq!(r.len(), 2);
    assert_eq!(r[0].crtc, 100);
    assert_eq!(r[1].crtc, 101);
    assert_ne!(r[0].crtc, r[1].crtc);
}

#[test]
fn failed_attempt_moves_to_next_candidate() {
    let res = DeviceResources {
        connectors: vec![connector(1, true, vec![11], vec![raw(800, 600, 60)])],
        encoders: vec![Encoder { handle: 11, possible_crtcs: 0b11 }],
        crtcs: vec![100, 101],
    };
    let failed = vec![FailedAttempt { connector: 0, crtc: 100 }];
    let r = scan_connectors(&res, &vec![Some(0)], &failed);
    assert_eq!(r.len(), 1);
    assert_eq!(r[0].crtc, 101);
}

#[test]
fn failure_of_every_candidate_skips_the_connector() {
    let res = DeviceResources {
        connectors: vec![connector(1, true, vec![11], vec![raw(800, 600, 60)])],
        encoders: vec![Encoder { handle: 11, possible_crtcs: 0b1 }],
        crtcs: vec![100],
    };
    let failed = vec![FailedAttempt { connector: 0, crtc: 100 }];
    let r = scan_connectors(&res, &vec![Some(0)], &failed);
    assert_eq!(r.len(), 0);
}

#[test]
fn policy_failure_aborts_only_that_connector() {
    let res = DeviceResources {
        connectors: vec![
            connector(1, true, vec![11], vec![raw(800, 600, 60)]),
            connector(2, true, vec![12], vec![raw(800, 600, 60)]),
        ],
        encoders: vec![
            Encoder { handle: 11, possible_crtcs: 0b01 },
            Encoder { handle: 12, possible_crtcs: 0b10 },
        ],
        crtcs: vec![100, 101],
    };
    // No policy answer for the first connector; an out-of-range answer
    // would have the same effect.
    let r = scan_connectors(&res, &vec![None, Some(0)], &Vec::new());
    assert_eq!(r.len(), 1);
    assert_eq!(r[0].connector, 1);
    let r2 = scan_connectors(&res, &vec![Some(5), Some(0)], &Vec::new());
    assert_eq!(r2.len(), 1);
    assert_eq!(r2[0].connector, 1);
}

#[test]
fn disconnected_connectors_are_ignored() {
    let res = DeviceResources {
        connectors: vec![connector(1, false, vec![11], vec![raw(800, 600, 60)])],
        encoders: vec![Encoder { handle: 11, possible_crtcs: 0b1 }],
        crtcs: vec![100],
    };
    let r = scan_connectors(&res, &vec![Some(0)], &Vec::new());
    assert_eq!(r.len(), 0);
}

#[test]
fn unknown_encoder_handles_are_skipped() {
    let res = DeviceResources {
        connectors: vec![connector(1, true, vec![99, 11], vec![raw(800, 600, 60)])],
        encoders: vec![Encoder { handle: 11, possible_crtcs: 0b1 }],
        crtcs: vec![100],
    };
    let r = scan_connectors(&res, &vec![Some(0)], &Vec::new());
    assert_eq!(r.len(), 1);
    assert_eq!(r[0].encoder, 11);
}

#[test]
fn encoder_mask_selects_crtcs() {
    let res = DeviceResources {
        connectors: vec![connector(1, true, vec![11], vec![raw(800, 600, 60)])],
        encoders: vec![Encoder { handle: 11, possible_crtcs: 0b10 }],
        crtcs: vec![100, 101],
    };
    let r = scan_connectors(&res, &vec![Some(0)], &Vec::new());
    assert_eq!(r.len(), 1);
    assert_eq!(r[0].crtc, 101);
}

#[test]
fn output_names_follow_the_interface() {
    assert_eq!(output_name(Interface::HdmiA, 1), "HDMI-A-1");
    assert_eq!(output_name(Interface::DisplayPort, 2), "DP-2");
    assert_eq!(output_name(Interface::EmbeddedDisplayPort, 1), "eDP-1");
    assert_eq!(output_name(Interface::Vga, 3), "VGA-3");
    assert_eq!(interface_label(Interface::SVideo), "S-VIDEO");
    assert_eq!(interface_label(Interface::DviI), "DVI-I");
}

#[test]
fn mode_conversion_to_millihertz() {
    let m = mode_of(raw(1920, 1080, 60));
    assert_eq!(m.size.w, 1920);
    assert_eq!(m.size.h, 1080);
    assert_eq!(m.refresh, 60_000);
}
