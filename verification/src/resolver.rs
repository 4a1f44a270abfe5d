//! The display pipeline resolver: the greedy connector / encoder / CRTC
//! matching pass that turns a device's mode-setting resources into the set
//! of pipelines to drive.
//!
//! Matching connectors to CRTCs optimally is NP-complete; the resolver uses
//! the first-fit greedy order of the resource lists, which is enough for
//! real hardware.  The caller attempts surface creation for each accepted
//! candidate; attempts it has seen fail are handed back in as plain values,
//! and the pass skips them and carries on with the next candidate of the
//! same connector.

use vstd::prelude::*;
use vstd::string::StringExecFns;
use crate::geometry::{Mode, Size};
use crate::numfmt::{dec_str, u32_to_string};

verus! {

/// A raw display mode as the kernel reports it.
#[derive(Clone, Copy, Debug, PartialEq, Eq, Structural)]
pub struct RawMode {
    pub width: u16,
    pub height: u16,
    /// Refresh rate in hertz.
    pub vrefresh: u32,
}

/// The physical port type of a connector.
#[derive(Clone, Copy, Debug, PartialEq, Eq, Structural)]
pub enum Interface {
    Unknown,
    Vga,
    DviI,
    DviD,
    DviA,
    Composite,
    SVideo,
    Lvds,
    Component,
    NinePinDin,
    DisplayPort,
    HdmiA,
    HdmiB,
    Tv,
    EmbeddedDisplayPort,
    Virtual,
    Dsi,
    Dpi,
}

/// A physical output port of the device.
pub struct Connector {
    pub handle: u32,
    /// Whether a monitor is attached.
    pub connected: bool,
    pub interface: Interface,
    /// Instance index of the interface; part of the output name.
    pub interface_id: u32,
    /// Physical size in millimeters, when known.
    pub phys_size_mm: Option<(u32, u32)>,
    /// Handles of the encoders that can drive this connector, in preference
    /// order.
    pub encoders: Vec<u32>,
    /// The modes the attached monitor supports, in kernel order.
    pub modes: Vec<RawMode>,
}

/// An encoder: it can drive the CRTCs named by its bitmask.
#[derive(Clone, Copy, Debug, PartialEq, Eq, Structural)]
pub struct Encoder {
    pub handle: u32,
    /// Bit `i` set means the CRTC at index `i` of the resource list is
    /// compatible.
    pub possible_crtcs: u32,
}

/// One device's mode-setting resources.
pub struct DeviceResources {
    pub connectors: Vec<Connector>,
    pub encoders: Vec<Encoder>,
    /// CRTC handles in resource-list order.
    pub crtcs: Vec<u32>,
}

/// An (encoder, CRTC) pair that could drive a connector.
#[derive(Clone, Copy, Debug, PartialEq, Eq, Structural)]
pub struct Candidate {
    pub encoder: u32,
    pub crtc: u32,
}

/// One accepted pipeline: the connector (by index into the resource list),
/// the encoder and CRTC that drive it, and the chosen mode index.
#[derive(Clone, Copy, Debug, PartialEq, Eq, Structural)]
pub struct Assignment {
    pub connector: usize,
    pub encoder: u32,
    pub crtc: u32,
    pub mode_idx: usize,
}

/// A candidate the caller has seen fail: surface or swapchain creation did
/// not succeed for this connector and CRTC during the current pass.
#[derive(Clone, Copy, Debug, PartialEq, Eq, Structural)]
pub struct FailedAttempt {
    pub connector: usize,
    pub crtc: u32,
}

/// The plan for one eligible connector: its candidate pipelines in greedy
/// order and the mode the policy chose.
pub struct PlanView {
    pub connector: usize,
    pub mode_idx: usize,
    pub cands: Seq<Candidate>,
}

/// Whether bit `i` of `mask` is set (false beyond the 32 mask bits).
pub open spec fn mask_bit(mask: u32, i: int) -> bool {
    0 <= i < 32 && (mask >> (i as u32)) & 1u32 == 1u32
}

/// The candidates contributed by one encoder: the CRTCs its mask allows,
/// in resource-list order, starting at index `t`.
pub open spec fn mask_cands(encoder: u32, mask: u32, crtcs: Seq<u32>, t: int) -> Seq<Candidate>
    decreases crtcs.len() - t,
{
    if t < 0 || t >= crtcs.len() {
        Seq::empty()
    } else {
        (if mask_bit(mask, t) {
            seq![(Candidate { encoder, crtc: crtcs[t] })]
        } else {
            Seq::empty()
        }) + mask_cands(encoder, mask, crtcs, t + 1)
    }
}

/// The first encoder in the resource list with the given handle, from
/// index `i` on.
pub open spec fn find_encoder(encs: Seq<Encoder>, handle: u32, i: int) -> Option<Encoder>
    decreases encs.len() - i,
{
    if i < 0 || i >= encs.len() {
        None
    } else if encs[i].handle == handle {
        Some(encs[i])
    } else {
        find_encoder(encs, handle, i + 1)
    }
}

/// All candidates of a connector: for each of its encoders (in preference
/// order, unknown handles skipped), the compatible CRTCs in resource order.
pub open spec fn conn_cands(
    enc_handles: Seq<u32>,
    encs: Seq<Encoder>,
    crtcs: Seq<u32>,
    j: int,
) -> Seq<Candidate>
    decreases enc_handles.len() - j,
{
    if j < 0 || j >= enc_handles.len() {
        Seq::empty()
    } else {
        (match find_encoder(encs, enc_handles[j], 0) {
            Some(e) => mask_cands(enc_handles[j], e.possible_crtcs, crtcs, 0),
            None => Seq::empty(),
        }) + conn_cands(enc_handles, encs, crtcs, j + 1)
    }
}

/// Whether a connector takes part in the pass: a monitor is attached and
/// the mode-selection policy returned a usable index.  A policy failure or
/// an out-of-range index aborts that connector's setup only.
pub open spec fn eligible(c: Connector, choice: Option<usize>) -> bool {
    c.connected && choice is Some && choice->Some_0 < c.modes@.len()
}

/// The plans of one pass: one entry per eligible connector, in resource
/// order.
pub open spec fn spec_plans(
    conns: Seq<Connector>,
    encs: Seq<Encoder>,
    crtcs: Seq<u32>,
    choices: Seq<Option<usize>>,
    i: int,
) -> Seq<PlanView>
    decreases conns.len() - i,
{
    if i < 0 || i >= conns.len() {
        Seq::empty()
    } else {
        (if eligible(conns[i], choices[i]) {
            seq![
                (PlanView {
                    connector: i as usize,
                    mode_idx: choices[i]->Some_0,
                    cands: conn_cands(conns[i].encoders@, encs, crtcs, 0),
                })
            ]
        } else {
            Seq::empty()
        }) + spec_plans(conns, encs, crtcs, choices, i + 1)
    }
}

/// Whether the caller reported the attempt (connector, crtc) as failed.
pub open spec fn fails(failed: Seq<FailedAttempt>, connector: usize, crtc: u32) -> bool {
    exists|k: int|
        0 <= k < failed.len() && (#[trigger] failed[k]).connector == connector && failed[k].crtc
            == crtc
}

/// The first candidate of a connector, from index `j` on, whose CRTC is
/// neither claimed by an earlier connector nor a reported failure.
pub open spec fn choose_cand(
    cands: Seq<Candidate>,
    claimed: Seq<u32>,
    failed: Seq<FailedAttempt>,
    connector: usize,
    j: int,
) -> Option<int>
    decreases cands.len() - j,
{
    if j < 0 || j >= cands.len() {
        None
    } else if !claimed.contains(cands[j].crtc) && !fails(failed, connector, cands[j].crtc) {
        Some(j)
    } else {
        choose_cand(cands, claimed, failed, connector, j + 1)
    }
}

/// The greedy pass over the plans from index `i` on: each connector takes
/// its first workable candidate, and a taken CRTC is claimed for the rest
/// of the pass.
pub open spec fn spec_scan(
    plans: Seq<PlanView>,
    claimed: Seq<u32>,
    failed: Seq<FailedAttempt>,
    i: int,
) -> Seq<Assignment>
    decreases plans.len() - i,
{
    if i < 0 || i >= plans.len() {
        Seq::empty()
    } else {
        let p = plans[i];
        match choose_cand(p.cands, claimed, failed, p.connector, 0) {
            Some(j) => seq![
                (Assignment {
                    connector: p.connector,
                    encoder: p.cands[j].encoder,
                    crtc: p.cands[j].crtc,
                    mode_idx: p.mode_idx,
                })
            ] + spec_scan(plans, claimed.push(p.cands[j].crtc), failed, i + 1),
            None => spec_scan(plans, claimed, failed, i + 1),
        }
    }
}

/// The complete result of one resolver pass over a device's resources.
pub open spec fn scan_result(
    res: DeviceResources,
    choices: Seq<Option<usize>>,
    failed: Seq<FailedAttempt>,
) -> Seq<Assignment> {
    spec_scan(
        spec_plans(res.connectors@, res.encoders@, res.crtcs@, choices, 0),
        Seq::empty(),
        failed,
        0,
    )
}

/// Validity of the reported resources: refresh rates and physical sizes
/// stay within the ranges the rest of the system stores them in.
pub open spec fn connector_wf(c: Connector) -> bool {
    &&& forall|k: int|
        0 <= k < c.modes@.len() ==> (#[trigger] c.modes@[k]).vrefresh <= 2_147_483
    &&& c.phys_size_mm is Some ==> c.phys_size_mm->Some_0.0 <= i32::MAX
        && c.phys_size_mm->Some_0.1 <= i32::MAX
}

/// Validity of a whole resource set.
pub open spec fn res_wf(res: DeviceResources) -> bool {
    forall|i: int| 0 <= i < res.connectors@.len() ==> connector_wf(#[trigger] res.connectors@[i])
}

/// The output mode derived from a raw mode: sizes widened, refresh turned
/// into millihertz.
pub open spec fn spec_mode_of(m: RawMode) -> Mode {
    Mode {
        size: Size { w: m.width as i32, h: m.height as i32 },
        refresh: (m.vrefresh * 1000) as i32,
    }
}

/// Converts a raw kernel mode into an output mode.
pub fn mode_of(m: RawMode) -> (r: Mode)
    requires
        m.vrefresh <= 2_147_483,
    ensures
        r == spec_mode_of(m),
        0 <= r.size.w <= 0xffff,
        0 <= r.size.h <= 0xffff,
        0 <= r.refresh,
{
    Mode {
        size: Size { w: m.width as i32, h: m.height as i32 },
        refresh: (m.vrefresh * 1000) as i32,
    }
}

/// The short label of a connector interface, as it appears in output
/// names.
pub open spec fn spec_interface_label(i: Interface) -> Seq<char> {
    match i {
        Interface::Unknown => "Unknown"@,
        Interface::Vga => "VGA"@,
        Interface::DviI => "DVI-I"@,
        Interface::DviD => "DVI-D"@,
        Interface::DviA => "DVI-A"@,
        Interface::Composite => "Composite"@,
        Interface::SVideo => "S-VIDEO"@,
        Interface::Lvds => "LVDS"@,
        Interface::Component => "Component"@,
        Interface::NinePinDin => "NinePinDIN"@,
        Interface::DisplayPort => "DP"@,
        Interface::HdmiA => "HDMI-A"@,
        Interface::HdmiB => "HDMI-B"@,
        Interface::Tv => "TV"@,
        Interface::EmbeddedDisplayPort => "eDP"@,
        Interface::Virtual => "Virtual"@,
        Interface::Dsi => "DSI"@,
        Interface::Dpi => "DPI"@,
    }
}

/// The short label of a connector interface.
pub fn interface_label(i: Interface) -> (r: &'static str)
    ensures
        r@ == spec_interface_label(i),
{
    match i {
        Interface::Unknown => "Unknown",
        Interface::Vga => "VGA",
        Interface::DviI => "DVI-I",
        Interface::DviD => "DVI-D",
        Interface::DviA => "DVI-A",
        Interface::Composite => "Composite",
        Interface::SVideo => "S-VIDEO",
        Interface::Lvds => "LVDS",
        Interface::Component => "Component",
        Interface::NinePinDin => "NinePinDIN",
        Interface::DisplayPort => "DP",
        Interface::HdmiA => "HDMI-A",
        Interface::HdmiB => "HDMI-B",
        Interface::Tv => "TV",
        Interface::EmbeddedDisplayPort => "eDP",
        Interface::Virtual => "Virtual",
        Interface::Dsi => "DSI",
        Interface::Dpi => "DPI",
    }
}

/// The stable output name: interface label, a dash, and the interface
/// instance index.
pub open spec fn spec_output_name(i: Interface, interface_id: u32) -> Seq<char> {
    spec_interface_label(i) + seq!['-'] + dec_str(interface_id as nat)
}

/// Derives the stable user-facing output name of a connector.
pub fn output_name(i: Interface, interface_id: u32) -> (r: String)
    ensures
        r@ == spec_output_name(i, interface_id),
{
    let mut s = String::from_str(interface_label(i));
    proof {
        reveal_strlit("-");
    }
    s.append("-");
    let digits = u32_to_string(interface_id);
    s.append(digits.as_str());
    s
}

/// A found candidate is in range, unclaimed and not a reported failure.
pub proof fn lemma_choose_props(
    cands: Seq<Candidate>,
    claimed: Seq<u32>,
    failed: Seq<FailedAttempt>,
    connector: usize,
    j: int,
)
    ensures
        choose_cand(cands, claimed, failed, connector, j) matches Some(jj) ==> j <= jj
            < cands.len() && !claimed.contains(cands[jj].crtc) && !fails(
            failed,
            connector,
            cands[jj].crtc,
        ),
    decreases cands.len() - j,
{
    if 0 <= j < cands.len() {
        lemma_choose_props(cands, claimed, failed, connector, j + 1);
    }
}

/// Every plan of a pass belongs to an eligible connector at or after `i`,
/// carries that connector's candidates and chosen mode, and the plans are
/// in strictly increasing connector order.
pub proof fn lemma_plans_props(
    conns: Seq<Connector>,
    encs: Seq<Encoder>,
    crtcs: Seq<u32>,
    choices: Seq<Option<usize>>,
    i: int,
)
    requires
        conns.len() <= usize::MAX,
    ensures
        forall|k: int|
            0 <= k < spec_plans(conns, encs, crtcs, choices, i).len() ==> {
                let p = #[trigger] spec_plans(conns, encs, crtcs, choices, i)[k];
                &&& i <= p.connector < conns.len()
                &&& eligible(conns[p.connector as int], choices[p.connector as int])
                &&& p.mode_idx == choices[p.connector as int]->Some_0
                &&& p.cands == conn_cands(conns[p.connector as int].encoders@, encs, crtcs, 0)
            },
        forall|k1: int, k2: int|
            0 <= k1 < k2 < spec_plans(conns, encs, crtcs, choices, i).len() ==> spec_plans(
                conns,
                encs,
                crtcs,
                choices,
                i,
            )[k1].connector < spec_plans(conns, encs, crtcs, choices, i)[k2].connector,
    decreases conns.len() - i,
{
    if 0 <= i < conns.len() {
        lemma_plans_props(conns, encs, crtcs, choices, i + 1);
        let ps = spec_plans(conns, encs, crtcs, choices, i);
        let tail = spec_plans(conns, encs, crtcs, choices, i + 1);
        if eligible(conns[i], choices[i]) {
            let head = PlanView {
                connector: i as usize,
                mode_idx: choices[i]->Some_0,
                cands: conn_cands(conns[i].encoders@, encs, crtcs, 0),
            };
            assert(ps == seq![head] + tail);
            assert(ps[0] == head);
            assert(forall|k: int| 1 <= k < ps.len() ==> ps[k] == tail[k - 1]);
            assert forall|k1: int, k2: int| 0 <= k1 < k2 < ps.len() implies ps[k1].connector
                < ps[k2].connector by {
                if k1 == 0 {
                    assert(ps[k2] == tail[k2 - 1]);
                } else {
                    assert(ps[k1] == tail[k1 - 1] && ps[k2] == tail[k2 - 1]);
                }
            }
        } else {
            assert(ps =~= tail);
        }
    }
}

/// Every assignment of a greedy pass uses an unclaimed CRTC, no two
/// assignments share a CRTC, and the assignments follow the plans in
/// strictly increasing connector order.
pub proof fn lemma_scan_props(
    plans: Seq<PlanView>,
    claimed: Seq<u32>,
    failed: Seq<FailedAttempt>,
    i: int,
)
    requires
        forall|k1: int, k2: int|
            0 <= k1 < k2 < plans.len() ==> (#[trigger] plans[k1]).connector < (
            #[trigger] plans[k2]).connector,
    ensures
        forall|k: int|
            0 <= k < spec_scan(plans, claimed, failed, i).len() ==> !claimed.contains(
                (#[trigger] spec_scan(plans, claimed, failed, i)[k]).crtc,
            ),
        forall|k1: int, k2: int|
            0 <= k1 < k2 < spec_scan(plans, claimed, failed, i).len() ==> (#[trigger] spec_scan(
                plans,
                claimed,
                failed,
                i,
            )[k1]).crtc != (#[trigger] spec_scan(plans, claimed, failed, i)[k2]).crtc,
        forall|k: int|
            0 <= k < spec_scan(plans, claimed, failed, i).len() ==> exists|p: int|
                i <= p < plans.len() && (#[trigger] spec_scan(plans, claimed, failed, i)[k]).connector
                    == (#[trigger] plans[p]).connector && spec_scan(plans, claimed, failed, i)[k].mode_idx
                    == plans[p].mode_idx && plans[p].cands.contains(
                    Candidate {
                        encoder: spec_scan(plans, claimed, failed, i)[k].encoder,
                        crtc: spec_scan(plans, claimed, failed, i)[k].crtc,
                    },
                ),
        forall|k1: int, k2: int|
            0 <= k1 < k2 < spec_scan(plans, claimed, failed, i).len() ==> (#[trigger] spec_scan(
                plans,
                claimed,
                failed,
                i,
            )[k1]).connector < (#[trigger] spec_scan(plans, claimed, failed, i)[k2]).connector,
        i < plans.len() ==> forall|k: int|
            0 <= k < spec_scan(plans, claimed, failed, i).len() ==> (#[trigger] spec_scan(
                plans,
                claimed,
                failed,
                i,
            )[k]).connector >= plans[i].connector,
    decreases plans.len() - i,
{
    if 0 <= i < plans.len() {
        let p = plans[i];
        let s = spec_scan(plans, claimed, failed, i);
        match choose_cand(p.cands, claimed, failed, p.connector, 0) {
            Some(j) => {
                lemma_choose_props(p.cands, claimed, failed, p.connector, 0);
                let c = p.cands[j].crtc;
                let head = Assignment {
                    connector: p.connector,
                    encoder: p.cands[j].encoder,
                    crtc: c,
                    mode_idx: p.mode_idx,
                };
                let rest = spec_scan(plans, claimed.push(c), failed, i + 1);
                lemma_scan_props(plans, claimed.push(c), failed, i + 1);
                assert(s == seq![head] + rest);
                assert(s[0] == head);
                assert(forall|k: int| 0 <= k < rest.len() ==> s[k + 1] == rest[k]);
                assert(p.cands.contains(Candidate { encoder: head.encoder, crtc: head.crtc }))
                    by {
                    assert(p.cands[j] == (Candidate { encoder: head.encoder, crtc: head.crtc }));
                }
                assert forall|x: u32| claimed.contains(x) implies claimed.push(c).contains(x) by {
                    let idx = choose|idx: int| 0 <= idx < claimed.len() && claimed[idx] == x;
                    assert(claimed.push(c)[idx] == x);
                }
                assert(claimed.push(c)[claimed.len() as int] == c);
                assert(claimed.push(c).contains(c));
                assert forall|k: int|
                    0 <= k < s.len() implies !claimed.contains((#[trigger] s[k]).crtc) by {
                    if k > 0 {
                        assert(s[k] == rest[k - 1]);
                        assert(!claimed.push(c).contains(rest[k - 1].crtc));
                    }
                }
                assert forall|k1: int, k2: int| 0 <= k1 < k2 < s.len() implies (
                #[trigger] s[k1]).crtc != (#[trigger] s[k2]).crtc by {
                    if k1 == 0 {
                        assert(s[k2] == rest[k2 - 1]);
                        assert(!claimed.push(c).contains(rest[k2 - 1].crtc));
                        assert(rest[k2 - 1].crtc != c);
                    } else {
                        assert(s[k1] == rest[k1 - 1] && s[k2] == rest[k2 - 1]);
                    }
                }
                assert forall|k: int| 0 <= k < s.len() implies exists|pp: int|
                    i <= pp < plans.len() && (#[trigger] s[k]).connector == (
                    #[trigger] plans[pp]).connector && s[k].mode_idx == plans[pp].mode_idx
                        && plans[pp].cands.contains(
                        Candidate { encoder: s[k].encoder, crtc: s[k].crtc },
                    ) by {
                    if k == 0 {
                        assert(i <= i < plans.len() && s[0].connector == plans[i].connector && s[
                            0
                        ].mode_idx == plans[i].mode_idx && plans[i].cands.contains(
                            Candidate { encoder: s[0].encoder, crtc: s[0].crtc },
                        ));
                    } else {
                        assert(s[k] == rest[k - 1]);
                        let pp = choose|pp: int|
                            i + 1 <= pp < plans.len() && (#[trigger] rest[k - 1]).connector
                                == plans[pp].connector && rest[k - 1].mode_idx
                                == plans[pp].mode_idx && plans[pp].cands.contains(
                                Candidate { encoder: rest[k - 1].encoder, crtc: rest[k - 1].crtc },
                            );
                        assert(i <= pp < plans.len() && s[k].connector == plans[pp].connector && s[
                            k
                        ].mode_idx == plans[pp].mode_idx && plans[pp].cands.contains(
                            Candidate { encoder: s[k].encoder, crtc: s[k].crtc },
                        ));
                    }
                }
                if i + 1 < plans.len() {
                    assert forall|k: int| 1 <= k < s.len() implies (#[trigger] s[k]).connector
                        > p.connector by {
                        assert(s[k] == rest[k - 1]);
                        assert(rest[k - 1].connector >= plans[i + 1].connector);
                        assert(plans[i].connector < plans[i + 1].connector);
                    }
                }
                assert forall|k1: int, k2: int| 0 <= k1 < k2 < s.len() implies (
                #[trigger] s[k1]).connector < (#[trigger] s[k2]).connector by {
                    if k1 == 0 {
                        assert(s[k2] == rest[k2 - 1]);
                    } else {
                        assert(s[k1] == rest[k1 - 1] && s[k2] == rest[k2 - 1]);
                    }
                }
            },
            None => {
                lemma_scan_props(plans, claimed, failed, i + 1);
                let rest = spec_scan(plans, claimed, failed, i + 1);
                assert(s == rest);
                if i + 1 < plans.len() {
                    assert forall|k: int| 0 <= k < s.len() implies (#[trigger] s[k]).connector
                        >= plans[i].connector by {
                        assert(rest[k].connector >= plans[i + 1].connector);
                    }
                }
                assert forall|k: int| 0 <= k < s.len() implies exists|pp: int|
                    i <= pp < plans.len() && (#[trigger] s[k]).connector == (
                    #[trigger] plans[pp]).connector && s[k].mode_idx == plans[pp].mode_idx
                        && plans[pp].cands.contains(
                        Candidate { encoder: s[k].encoder, crtc: s[k].crtc },
                    ) by {
                    let pp = choose|pp: int|
                        i + 1 <= pp < plans.len() && (#[trigger] rest[k]).connector
                            == plans[pp].connector && rest[k].mode_idx == plans[pp].mode_idx
                            && plans[pp].cands.contains(
                            Candidate { encoder: rest[k].encoder, crtc: rest[k].crtc },
                        );
                    assert(i <= pp < plans.len() && s[k].connector == plans[pp].connector && s[
                        k
                    ].mode_idx == plans[pp].mode_idx && plans[pp].cands.contains(
                        Candidate { encoder: s[k].encoder, crtc: s[k].crtc },
                    ));
                }
            },
        }
    }
}

/// Every assignment of a full pass names an in-range, connected connector
/// whose policy choice is the assignment's mode index; no CRTC and no
/// connector is assigned twice.  The CRTC-uniqueness clause is the heart of
/// the matching: one resolver pass never assigns the same CRTC to two
/// connectors.
pub proof fn lemma_scan_result_valid(
    res: &DeviceResources,
    choices: Seq<Option<usize>>,
    failed: Seq<FailedAttempt>,
)
    requires
        choices.len() == res.connectors@.len(),
        res.connectors@.len() <= usize::MAX,
    ensures
        forall|k: int|
            0 <= k < scan_result(*res, choices, failed).len() ==> {
                let a = #[trigger] scan_result(*res, choices, failed)[k];
                &&& a.connector < res.connectors@.len()
                &&& res.connectors@[a.connector as int].connected
                &&& choices[a.connector as int] == Some(a.mode_idx)
                &&& a.mode_idx < res.connectors@[a.connector as int].modes@.len()
            },
        forall|k1: int, k2: int|
            0 <= k1 < k2 < scan_result(*res, choices, failed).len() ==> (#[trigger] scan_result(
                *res,
                choices,
                failed,
            )[k1]).crtc != (#[trigger] scan_result(*res, choices, failed)[k2]).crtc,
        forall|k1: int, k2: int|
            0 <= k1 < k2 < scan_result(*res, choices, failed).len() ==> (#[trigger] scan_result(
                *res,
                choices,
                failed,
            )[k1]).connector < (#[trigger] scan_result(*res, choices, failed)[k2]).connector,
{
    let plans = spec_plans(res.connectors@, res.encoders@, res.crtcs@, choices, 0);
    lemma_plans_props(res.connectors@, res.encoders@, res.crtcs@, choices, 0);
    lemma_scan_props(plans, Seq::empty(), failed, 0);
    let s = scan_result(*res, choices, failed);
    assert forall|k: int| 0 <= k < s.len() implies {
        let a = #[trigger] s[k];
        &&& a.connector < res.connectors@.len()
        &&& res.connectors@[a.connector as int].connected
        &&& choices[a.connector as int] == Some(a.mode_idx)
        &&& a.mode_idx < res.connectors@[a.connector as int].modes@.len()
    } by {
        let p = choose|p: int|
            0 <= p < plans.len() && (#[trigger] s[k]).connector == plans[p].connector && s[
                k
            ].mode_idx == plans[p].mode_idx && plans[p].cands.contains(
                Candidate { encoder: s[k].encoder, crtc: s[k].crtc },
            );
        assert(eligible(
            res.connectors@[plans[p].connector as int],
            choices[plans[p].connector as int],
        ));
    }
}

/// First membership test used by the greedy pass.
fn vec_contains_u32(v: &Vec<u32>, x: u32) -> (r: bool)
    ensures
        r == v@.contains(x),
{
    let mut i: usize = 0;
    while i < v.len()
        invariant
            i <= v@.len(),
            forall|k: int| 0 <= k < i ==> v@[k] != x,
        decreases v@.len() - i,
    {
        if v[i] == x {
            proof {
                assert(v@.contains(x)) by {
                    assert(v@[i as int] == x);
                }
            }
            return true;
        }
        i = i + 1;
    }
    false
}

/// Whether the caller reported this (connector, CRTC) attempt as failed.
fn fails_exec(failed: &Vec<FailedAttempt>, connector: usize, crtc: u32) -> (r: bool)
    ensures
        r == fails(failed@, connector, crtc),
{
    let mut i: usize = 0;
    while i < failed.len()
        invariant
            i <= failed@.len(),
            forall|k: int|
                0 <= k < i ==> !((#[trigger] failed@[k]).connector == connector && failed@[k].crtc
                    == crtc),
        decreases failed@.len() - i,
    {
        let f = failed[i];
        if f.connector == connector && f.crtc == crtc {
            proof {
                assert(fails(failed@, connector, crtc)) by {
                    assert((#[trigger] failed@[i as int]).connector == connector
                        && failed@[i as int].crtc == crtc);
                }
            }
            return true;
        }
        i = i + 1;
    }
    false
}

/// Looks an encoder handle up in the resource list.
fn find_encoder_exec(encs: &Vec<Encoder>, handle: u32) -> (r: Option<Encoder>)
    ensures
        r == find_encoder(encs@, handle, 0),
{
    let mut i: usize = 0;
    while i < encs.len()
        invariant
            i <= encs@.len(),
            find_encoder(encs@, handle, 0) == find_encoder(encs@, handle, i as int),
        decreases encs@.len() - i,
    {
        if encs[i].handle == handle {
            return Some(encs[i]);
        }
        i = i + 1;
    }
    None
}

/// Builds the candidate list of one connector: for each encoder of the
/// connector, the CRTCs its mask allows, in resource order.
fn connector_candidates(c: &Connector, encs: &Vec<Encoder>, crtcs: &Vec<u32>) -> (r: Vec<
    Candidate,
>)
    ensures
        r@ == conn_cands(c.encoders@, encs@, crtcs@, 0),
{
    let mut out: Vec<Candidate> = Vec::new();
    let mut j: usize = 0;
    while j < c.encoders.len()
        invariant
            j <= c.encoders@.len(),
            conn_cands(c.encoders@, encs@, crtcs@, 0) == out@ + conn_cands(
                c.encoders@,
                encs@,
                crtcs@,
                j as int,
            ),
        decreases c.encoders@.len() - j,
    {
        let handle: u32 = c.encoders[j];
        match find_encoder_exec(encs, handle) {
            Some(e) => {
                let ghost before = out@;
                let mask: u32 = e.possible_crtcs;
                let mut t: usize = 0;
                while t < crtcs.len()
                    invariant
                        t <= crtcs@.len(),
                        before + mask_cands(handle, mask, crtcs@, 0) == out@ + mask_cands(
                            handle,
                            mask,
                            crtcs@,
                            t as int,
                        ),
                    decreases crtcs@.len() - t,
                {
                    if t < 32 && (mask >> (t as u32)) & 1 == 1 {
                        proof {
                            assert(mask_bit(mask, t as int));
                            assert(mask_cands(handle, mask, crtcs@, t as int) == seq![
                                (Candidate { encoder: handle, crtc: crtcs@[t as int] })
                            ] + mask_cands(handle, mask, crtcs@, t as int + 1));
                        }
                        out.push(Candidate { encoder: handle, crtc: crtcs[t] });
                        proof {
                            assert(before + mask_cands(handle, mask, crtcs@, 0) =~= out@
                                + mask_cands(handle, mask, crtcs@, t as int + 1));
                        }
                    } else {
                        proof {
                            assert(!mask_bit(mask, t as int));
                            assert(mask_cands(handle, mask, crtcs@, t as int) == mask_cands(
                                handle,
                                mask,
                                crtcs@,
                                t as int + 1,
                            ));
                        }
                    }
                    t = t + 1;
                }
                proof {
                    assert(mask_cands(handle, mask, crtcs@, crtcs@.len() as int)
                        == Seq::<Candidate>::empty());
                    assert(before + mask_cands(handle, mask, crtcs@, 0) =~= out@);
                    assert(conn_cands(c.encoders@, encs@, crtcs@, j as int) == mask_cands(
                        handle,
                        mask,
                        crtcs@,
                        0,
                    ) + conn_cands(c.encoders@, encs@, crtcs@, j as int + 1));
                    assert(conn_cands(c.encoders@, encs@, crtcs@, 0) =~= out@ + conn_cands(
                        c.encoders@,
                        encs@,
                        crtcs@,
                        j as int + 1,
                    ));
                }
            },
            None => {
                proof {
                    assert(conn_cands(c.encoders@, encs@, crtcs@, j as int) == Seq::<
                        Candidate,
                    >::empty() + conn_cands(c.encoders@, encs@, crtcs@, j as int + 1));
                    assert(conn_cands(c.encoders@, encs@, crtcs@, 0) =~= out@ + conn_cands(
                        c.encoders@,
                        encs@,
                        crtcs@,
                        j as int + 1,
                    ));
                }
            },
        }
        j = j + 1;
    }
    proof {
        assert(conn_cands(c.encoders@, encs@, crtcs@, c.encoders@.len() as int) == Seq::<
            Candidate,
        >::empty());
        assert(out@ =~= conn_cands(c.encoders@, encs@, crtcs@, 0));
    }
    out
}

/// Finds the first workable candidate of a connector: unclaimed and not a
/// reported failure.
fn choose_exec(
    cands: &Vec<Candidate>,
    claimed: &Vec<u32>,
    failed: &Vec<FailedAttempt>,
    connector: usize,
) -> (r: Option<usize>)
    ensures
        match r {
            Some(j) => choose_cand(cands@, claimed@, failed@, connector, 0) == Some(j as int),
            None => choose_cand(cands@, claimed@, failed@, connector, 0) is None,
        },
{
    let mut j: usize = 0;
    while j < cands.len()
        invariant
            j <= cands@.len(),
            choose_cand(cands@, claimed@, failed@, connector, 0) == choose_cand(
                cands@,
                claimed@,
                failed@,
                connector,
                j as int,
            ),
        decreases cands@.len() - j,
    {
        let c = cands[j];
        if !vec_contains_u32(claimed, c.crtc) && !fails_exec(failed, connector, c.crtc) {
            return Some(j);
        }
        j = j + 1;
    }
    None
}

/// A plan in executable form.
struct ScanPlan {
    connector: usize,
    mode_idx: usize,
    cands: Vec<Candidate>,
}

impl View for ScanPlan {
    type V = PlanView;

    closed spec fn view(&self) -> PlanView {
        PlanView { connector: self.connector, mode_idx: self.mode_idx, cands: self.cands@ }
    }
}

/// One full resolver pass.  `choices` gives, per connector, the mode index
/// the mode-selection policy returned (or nothing when the policy failed);
/// `failed` lists the candidates whose surface creation the caller has
/// seen fail during this pass.  Connected connectors are matched to the
/// first free (encoder, CRTC) pair in resource order; a claimed CRTC is
/// never handed to a second connector.
pub fn scan_connectors(
    res: &DeviceResources,
    choices: &Vec<Option<usize>>,
    failed: &Vec<FailedAttempt>,
) -> (r: Vec<Assignment>)
    requires
        choices@.len() == res.connectors@.len(),
    ensures
        r@ == scan_result(*res, choices@, failed@),
        forall|k1: int, k2: int|
            0 <= k1 < k2 < r@.len() ==> (#[trigger] r@[k1]).crtc != (#[trigger] r@[k2]).crtc,
        forall|k1: int, k2: int|
            0 <= k1 < k2 < r@.len() ==> (#[trigger] r@[k1]).connector < (
            #[trigger] r@[k2]).connector,
        forall|k: int|
            0 <= k < r@.len() ==> {
                let a = #[trigger] r@[k];
                &&& a.connector < res.connectors@.len()
                &&& res.connectors@[a.connector as int].connected
                &&& choices@[a.connector as int] == Some(a.mode_idx)
                &&& a.mode_idx < res.connectors@[a.connector as int].modes@.len()
            },
{
    let ghost conns = res.connectors@;
    let ghost encsg = res.encoders@;
    let ghost crtcsg = res.crtcs@;
    let mut plans: Vec<ScanPlan> = Vec::new();
    let mut i: usize = 0;
    while i < res.connectors.len()
        invariant
            choices@.len() == conns.len(),
            conns == res.connectors@,
            encsg == res.encoders@,
            crtcsg == res.crtcs@,
            i <= conns.len(),
            spec_plans(conns, encsg, crtcsg, choices@, 0) == plans@.map_values(
                |p: ScanPlan| p@,
            ) + spec_plans(conns, encsg, crtcsg, choices@, i as int),
        decreases conns.len() - i,
    {
        let ghost plansv = plans@.map_values(|p: ScanPlan| p@);
        let c = &res.connectors[i];
        proof {
            assert(*c == conns[i as int]);
        }
        let mut use_plan: bool = false;
        let mut mode_idx: usize = 0;
        if c.connected {
            match choices[i] {
                Some(k) => {
                    if k < c.modes.len() {
                        use_plan = true;
                        mode_idx = k;
                    }
                },
                None => {},
            }
        }
        if use_plan {
            let cands = connector_candidates(c, &res.encoders, &res.crtcs);
            plans.push(ScanPlan { connector: i, mode_idx, cands });
            proof {
                assert(eligible(conns[i as int], choices@[i as int]));
                assert(plans@.map_values(|p: ScanPlan| p@) =~= plansv + seq![
                    (PlanView {
                        connector: i,
                        mode_idx: mode_idx,
                        cands: conn_cands(conns[i as int].encoders@, encsg, crtcsg, 0),
                    })
                ]);
                assert(spec_plans(conns, encsg, crtcsg, choices@, 0) =~= plans@.map_values(
                    |p: ScanPlan| p@,
                ) + spec_plans(conns, encsg, crtcsg, choices@, i as int + 1));
            }
        } else {
            proof {
                assert(!eligible(conns[i as int], choices@[i as int]));
                assert(spec_plans(conns, encsg, crtcsg, choices@, i as int) == Seq::<
                    PlanView,
                >::empty() + spec_plans(conns, encsg, crtcsg, choices@, i as int + 1));
                assert(spec_plans(conns, encsg, crtcsg, choices@, 0) =~= plans@.map_values(
                    |p: ScanPlan| p@,
                ) + spec_plans(conns, encsg, crtcsg, choices@, i as int + 1));
            }
        }
        i = i + 1;
    }
    let ghost plansv = plans@.map_values(|p: ScanPlan| p@);
    proof {
        assert(spec_plans(conns, encsg, crtcsg, choices@, conns.len() as int) == Seq::<
            PlanView,
        >::empty());
        assert(plansv =~= spec_plans(conns, encsg, crtcsg, choices@, 0));
    }
    let mut claimed: Vec<u32> = Vec::new();
    let mut out: Vec<Assignment> = Vec::new();
    let mut pi: usize = 0;
    while pi < plans.len()
        invariant
            plansv == plans@.map_values(|p: ScanPlan| p@),
            pi <= plansv.len(),
            spec_scan(plansv, Seq::empty(), failed@, 0) == out@ + spec_scan(
                plansv,
                claimed@,
                failed@,
                pi as int,
            ),
        decreases plansv.len() - pi,
    {
        let ghost outg = out@;
        let ghost claimedg = claimed@;
        let p = &plans[pi];
        proof {
            assert(p@ == plansv[pi as int]);
        }
        match choose_exec(&p.cands, &claimed, failed, p.connector) {
            Some(j) => {
                proof {
                    lemma_choose_props(p@.cands, claimedg, failed@, p@.connector, 0);
                }
                let c = p.cands[j];
                out.push(
                    Assignment {
                        connector: p.connector,
                        encoder: c.encoder,
                        crtc: c.crtc,
                        mode_idx: p.mode_idx,
                    },
                );
                claimed.push(c.crtc);
                proof {
                    assert(choose_cand(p@.cands, claimedg, failed@, p@.connector, 0) == Some(
                        j as int,
                    ));
                    assert(spec_scan(plansv, claimedg, failed@, pi as int) == seq![
                        (Assignment {
                            connector: p@.connector,
                            encoder: p@.cands[j as int].encoder,
                            crtc: p@.cands[j as int].crtc,
                            mode_idx: p@.mode_idx,
                        })
                    ] + spec_scan(plansv, claimedg.push(p@.cands[j as int].crtc), failed@, pi as int
                        + 1));
                    assert(claimed@ == claimedg.push(p@.cands[j as int].crtc));
                    assert(outg + spec_scan(plansv, claimedg, failed@, pi as int) =~= out@
                        + spec_scan(plansv, claimed@, failed@, pi as int + 1));
                }
            },
            None => {
                proof {
                    assert(spec_scan(plansv, claimedg, failed@, pi as int) == spec_scan(
                        plansv,
                        claimedg,
                        failed@,
                        pi as int + 1,
                    ));
                }
            },
        }
        pi = pi + 1;
    }
    proof {
        assert(spec_scan(plansv, claimed@, failed@, plansv.len() as int) == Seq::<
            Assignment,
        >::empty());
        assert(out@ =~= spec_scan(plansv, Seq::empty(), failed@, 0));
        lemma_scan_result_valid(res, choices@, failed@);
    }
    out
}

} // verus!
