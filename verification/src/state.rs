//! The backend state: the graph of open devices, their surfaces and the
//! output map, together with the device lifecycle (hotplug add / change /
//! remove), the render scheduler and the session-signal bridge.
//!
//! All hardware work happens outside: callers report what the hardware did
//! as plain values (`AttemptOutcome`, session signals) and receive the
//! actions to perform (retry timers, frame broadcasts, process
//! termination).  Every decision in between is verified.

use vstd::prelude::*;
use crate::geometry::{Point, Size};
use crate::output::{Output, OutputTag, OutputView};
use crate::output_map::{
    arranged, drop_device, has_tag, lemma_arranged_pointwise, lemma_drop_device,
    lemma_seq_concat, lemma_tagged_crtcs_same_tags, lemma_total_width_nonneg,
    lemma_total_width_prefix_le, lemma_total_width_same_sizes, outputs_ok, outputs_wf,
    tagged_crtcs, total_width, OutputMap,
};
use crate::resolver::{
    connector_wf, lemma_scan_result_valid, mode_of, output_name, res_wf, scan_connectors,
    scan_result, spec_mode_of, spec_output_name, Assignment, DeviceResources, FailedAttempt,
};
use crate::output_map::lemma_arranged_extend;

verus! {

/// One active CRTC's swapchain state and frame counter.  A surface exists
/// exactly while its device reports a live connector-to-CRTC assignment
/// for it.
#[derive(Clone, Copy, Debug, PartialEq, Eq, Structural)]
pub struct Surface {
    /// The CRTC this surface drives; unique within its device.
    pub crtc: u32,
    /// A buffer is queued for presentation and its completion signal has
    /// not been acknowledged yet.
    pub pending: bool,
    /// Frames composed so far; the base of the rolling frame-rate counter.
    pub frames: u64,
}

/// Mathematical image of a [`Device`].
pub struct DeviceView {
    pub id: u64,
    pub surfaces: Seq<Surface>,
    pub formats: Seq<u64>,
}

/// One open GPU node: its surfaces, keyed by CRTC, and the buffer formats
/// its render context can import.
pub struct Device {
    id: u64,
    surfaces: Vec<Surface>,
    formats: Vec<u64>,
}

impl View for Device {
    type V = DeviceView;

    closed spec fn view(&self) -> DeviceView {
        DeviceView { id: self.id, surfaces: self.surfaces@, formats: self.formats@ }
    }
}

/// Mathematical image of a [`BackendState`].
pub struct StateView {
    pub devices: Seq<DeviceView>,
    pub outputs: Seq<OutputView>,
    /// The device holding the primary-presentation role, if any.
    pub primary: Option<u64>,
}

/// Whether some device in the sequence carries `id`.
pub open spec fn has_device(devs: Seq<DeviceView>, id: u64) -> bool {
    exists|k: int| 0 <= k < devs.len() && (#[trigger] devs[k]).id == id
}

/// The CRTC handles of a device's surfaces, in order.
pub open spec fn surface_crtcs(surfaces: Seq<Surface>) -> Seq<u32> {
    surfaces.map_values(|s: Surface| s.crtc)
}

/// Validity of the whole backend state.
///
/// The load-bearing clause is the third one: for every device, the outputs
/// tagged with its id list, in order, exactly the CRTCs of the device's
/// surfaces.  Surfaces and tagged outputs are therefore in one-to-one
/// correspondence at all times.
pub open spec fn state_wf(v: StateView) -> bool {
    &&& outputs_ok(v.outputs)
    &&& forall|d1: int, d2: int|
        0 <= d1 < d2 < v.devices.len() ==> (#[trigger] v.devices[d1]).id != (
        #[trigger] v.devices[d2]).id
    &&& forall|d: int|
        0 <= d < v.devices.len() ==> tagged_crtcs(v.outputs, (#[trigger] v.devices[d]).id)
            == surface_crtcs(v.devices[d].surfaces)
    &&& forall|d: int, s1: int, s2: int|
        0 <= d < v.devices.len() && 0 <= s1 < s2 < v.devices[d].surfaces.len() ==> (
        #[trigger] v.devices[d].surfaces[s1]).crtc != (#[trigger] v.devices[d].surfaces[s2]).crtc
    &&& forall|i: int|
        0 <= i < v.outputs.len() ==> ((#[trigger] v.outputs[i]).tag is Some ==> has_device(
            v.devices,
            v.outputs[i].tag->Some_0.device_id,
        ))
    &&& v.primary is Some ==> has_device(v.devices, v.primary->Some_0)
}

/// No output is tagged by a device that does not exist, so a sequence of
/// outputs none of which is tagged by `id` has no bookkeeping for `id`.
pub proof fn lemma_tagged_crtcs_empty(s: Seq<OutputView>, id: u64)
    requires
        forall|i: int| 0 <= i < s.len() ==> !(#[trigger] s[i]).tagged_with(id),
    ensures
        tagged_crtcs(s, id) == Seq::<u32>::empty(),
    decreases s.len(),
{
    if s.len() > 0 {
        lemma_tagged_crtcs_empty(s.drop_last(), id);
    }
}

/// The surface / output one-to-one law: in every valid state, the number
/// of surfaces a device owns equals the number of outputs carrying that
/// device's backward tag.
pub proof fn lemma_surface_output_one_to_one(v: StateView, d: int)
    requires
        state_wf(v),
        0 <= d < v.devices.len(),
    ensures
        tagged_crtcs(v.outputs, v.devices[d].id).len() == v.devices[d].surfaces.len(),
{
    assert(tagged_crtcs(v.outputs, v.devices[d].id) == surface_crtcs(v.devices[d].surfaces));
}

/// The output created for one accepted pipeline: named after the
/// connector, showing the chosen mode at scale 1.0, placed at the identity
/// location (the arrangement recomputes placement), and tagged with the
/// (device, CRTC) pair that realizes it.
pub open spec fn output_of(res: DeviceResources, device_id: u64, a: Assignment) -> OutputView {
    let c = res.connectors@[a.connector as int];
    OutputView {
        name: spec_output_name(c.interface, c.interface_id),
        physical_size: match c.phys_size_mm {
            Some(p) => Size { w: p.0 as i32, h: p.1 as i32 },
            None => Size { w: 0, h: 0 },
        },
        current_mode: spec_mode_of(c.modes@[a.mode_idx as int]),
        scale_milli: 1000u32,
        location: Point { x: 0, y: 0 },
        tag: Some(OutputTag { device_id, crtc: a.crtc }),
        active_workspace: Seq::empty(),
        exclusive_zone: crate::output::ExclusiveZone { left: 0, top: 0, bottom: 0 },
    }
}

/// The outputs a resolver pass registers, one per assignment, in pass
/// order.
pub open spec fn added_outputs(
    res: DeviceResources,
    device_id: u64,
    asgs: Seq<Assignment>,
) -> Seq<OutputView>
    decreases asgs.len(),
{
    if asgs.len() == 0 {
        Seq::empty()
    } else {
        added_outputs(res, device_id, asgs.drop_last()) + seq![
            output_of(res, device_id, asgs.last())
        ]
    }
}

/// The surfaces a resolver pass creates: one idle surface per assignment.
pub open spec fn added_surfaces(asgs: Seq<Assignment>) -> Seq<Surface> {
    asgs.map_values(|a: Assignment| Surface { crtc: a.crtc, pending: false, frames: 0 })
}

/// The registered outputs are pointwise the outputs of the assignments.
pub proof fn lemma_added_outputs_props(res: DeviceResources, device_id: u64, asgs: Seq<Assignment>)
    ensures
        added_outputs(res, device_id, asgs).len() == asgs.len(),
        forall|k: int|
            0 <= k < asgs.len() ==> #[trigger] added_outputs(res, device_id, asgs)[k] == output_of(
                res,
                device_id,
                asgs[k],
            ),
    decreases asgs.len(),
{
    if asgs.len() > 0 {
        lemma_added_outputs_props(res, device_id, asgs.drop_last());
    }
}

/// The registered outputs are all tagged with the new device, with exactly
/// the assigned CRTCs in order, and no other device's bookkeeping sees
/// them.
pub proof fn lemma_added_outputs_tags(res: DeviceResources, device_id: u64, asgs: Seq<Assignment>)
    ensures
        tagged_crtcs(added_outputs(res, device_id, asgs), device_id) == asgs.map_values(
            |a: Assignment| a.crtc,
        ),
        forall|d: u64|
            d != device_id ==> #[trigger] tagged_crtcs(added_outputs(res, device_id, asgs), d)
                == Seq::<u32>::empty(),
    decreases asgs.len(),
{
    let added = added_outputs(res, device_id, asgs);
    if asgs.len() == 0 {
        assert(asgs.map_values(|a: Assignment| a.crtc) =~= Seq::<u32>::empty());
    } else {
        lemma_added_outputs_tags(res, device_id, asgs.drop_last());
        let prev = added_outputs(res, device_id, asgs.drop_last());
        let o = output_of(res, device_id, asgs.last());
        assert(added.drop_last() =~= prev);
        assert(added.last() == o);
        assert(o.tagged_with(device_id));
        assert(tagged_crtcs(added, device_id) == tagged_crtcs(prev, device_id) + seq![
            asgs.last().crtc
        ]);
        assert(tagged_crtcs(added, device_id) =~= asgs.map_values(|a: Assignment| a.crtc));
        assert forall|d: u64| d != device_id implies #[trigger] tagged_crtcs(added, d) == Seq::<
            u32,
        >::empty() by {
            assert(!o.tagged_with(d));
            assert(tagged_crtcs(added, d) == tagged_crtcs(prev, d));
        }
    }
}

/// The registered outputs are valid outputs.
pub proof fn lemma_added_outputs_wf(res: DeviceResources, device_id: u64, asgs: Seq<Assignment>)
    requires
        res_wf(res),
        forall|k: int|
            0 <= k < asgs.len() ==> (#[trigger] asgs[k]).connector < res.connectors@.len() && asgs[
                k
            ].mode_idx < res.connectors@[asgs[k].connector as int].modes@.len(),
    ensures
        outputs_wf(added_outputs(res, device_id, asgs)),
    decreases asgs.len(),
{
    let added = added_outputs(res, device_id, asgs);
    if asgs.len() > 0 {
        assert(forall|k: int|
            0 <= k < asgs.drop_last().len() ==> asgs.drop_last()[k] == asgs[k]);
        lemma_added_outputs_wf(res, device_id, asgs.drop_last());
        let prev = added_outputs(res, device_id, asgs.drop_last());
        let a = asgs.last();
        let c = res.connectors@[a.connector as int];
        assert(connector_wf(c));
        assert(c.modes@[a.mode_idx as int].vrefresh <= 2_147_483);
        assert(output_of(res, device_id, a).inv());
        assert forall|i: int| 0 <= i < added.len() implies (#[trigger] added[i]).inv() by {
            if i < prev.len() {
                assert(added[i] == prev[i]);
            } else {
                assert(added[i] == output_of(res, device_id, a));
            }
        }
    }
}

/// The benign conditions a transient presentation failure can wrap.
#[derive(Clone, Copy, Debug, PartialEq, Eq, Structural)]
pub enum TemporaryCause {
    /// The session was revoked mid-flight; the device is paused.
    DeviceInactive,
    /// Hardware access was denied; equivalent to a paused device.
    PermissionDenied,
    /// Any other transient condition; worth retrying.
    Other,
}

/// Why a render attempt failed.
#[derive(Clone, Copy, Debug, PartialEq, Eq, Structural)]
pub enum RenderError {
    /// The previous frame is still queued; nothing to do.
    AlreadySwapped,
    /// A transient failure; retried on a timer unless benign.
    TemporaryFailure(TemporaryCause),
    /// The render context is unusable; the process terminates.
    ContextLost,
}

/// What the hardware reported for one render attempt, as the caller
/// observed it: the scene composition and the buffer submission can each
/// fail.
#[derive(Clone, Copy, Debug, PartialEq, Eq, Structural)]
pub enum AttemptOutcome {
    Success,
    /// Acquiring, binding or composing the frame failed.
    ComposeError(RenderError),
    /// Queueing the composed buffer for presentation failed.
    QueueError(RenderError),
}

/// What the event loop must do after a render pass.
#[derive(Clone, Copy, Debug, PartialEq, Eq, Structural)]
pub enum RenderAction {
    /// Re-render this surface after the fixed retry interval.
    ScheduleRetry { device_id: u64, crtc: u32, delay_ms: u64 },
    /// Tell every client surface to start drawing its next frame.
    SendFrames { time_ms: u32 },
    /// The render context is lost; terminate the process.
    Fatal { device_id: u64, crtc: u32 },
}

/// A session transition delivered on the signal bus.
#[derive(Clone, Copy, Debug, PartialEq, Eq, Structural)]
pub enum SessionSignal {
    ActivateSession,
    ActivateDevice { device_id: u64 },
    Other,
}

/// What the event loop must do after a session transition.
#[derive(Clone, Copy, Debug, PartialEq, Eq, Structural)]
pub enum SessionAction {
    /// Re-render the whole device on the next idle slot of the event
    /// loop, never synchronously from the signal dispatch.
    ScheduleIdleRender { device_id: u64 },
}

/// What to do after a one-time initial (blanking) render attempt.
#[derive(Clone, Copy, Debug, PartialEq, Eq, Structural)]
pub enum InitialRenderAction {
    /// Nothing further; also used when the surface is already gone.
    Done,
    /// Queue the attempt again as a deferred idle task.
    Requeue,
    /// The render context is lost; terminate the process.
    Fatal,
}

/// The fixed retry interval for transient render failures, approximating
/// 60 Hz.  Retries repeat at this interval until the render succeeds or
/// the surface is torn down; there is no backoff growth and no retry cap.
pub const RETRY_INTERVAL_MS: u64 = 1000 / 60;

/// Whether a failed render is retried on a timer: only transient failures
/// that are not caused by a revoked session.
pub open spec fn spec_reschedule(e: RenderError) -> bool {
    &&& e is TemporaryFailure
    &&& e->TemporaryFailure_0 != TemporaryCause::DeviceInactive
    &&& e->TemporaryFailure_0 != TemporaryCause::PermissionDenied
}

/// Classifies a render failure: retry, or let it rest.
pub fn reschedule_on(e: &RenderError) -> (r: bool)
    ensures
        r == spec_reschedule(*e),
{
    match e {
        RenderError::TemporaryFailure(c) => match c {
            TemporaryCause::DeviceInactive => false,
            TemporaryCause::PermissionDenied => false,
            TemporaryCause::Other => true,
        },
        _ => false,
    }
}

/// Acknowledges the previous frame when a completion signal arrived.
pub open spec fn spec_ack(s: Surface, completed: bool) -> Surface {
    if completed {
        Surface { pending: false, ..s }
    } else {
        s
    }
}

/// Advances the frame counter (saturating).
pub open spec fn spec_tick(s: Surface) -> Surface {
    Surface {
        frames: if s.frames < u64::MAX {
            (s.frames + 1) as u64
        } else {
            u64::MAX
        },
        ..s
    }
}

/// Whether some output carries the backward tag (`device_id`, `crtc`).
pub open spec fn output_mapped(outs: Seq<OutputView>, device_id: u64, crtc: u32) -> bool {
    exists|i: int| 0 <= i < outs.len() && has_tag(#[trigger] outs[i], device_id, crtc)
}

/// One surface render step: acknowledge the previous frame, skip silently
/// when no output maps to the surface (a race with removal), compose,
/// then queue.  A surface whose previous buffer is still in flight never
/// queues a second one: the attempt is rejected as `AlreadySwapped`.
pub open spec fn spec_render_surface(
    sv: Surface,
    mapped: bool,
    completed: bool,
    outcome: AttemptOutcome,
) -> (Surface, Result<bool, RenderError>) {
    let a = spec_ack(sv, completed);
    if !mapped {
        (a, Ok(false))
    } else {
        match outcome {
            AttemptOutcome::ComposeError(e) => (a, Err(e)),
            _ => {
                let t = spec_tick(a);
                if a.pending {
                    (t, Err(RenderError::AlreadySwapped))
                } else {
                    match outcome {
                        AttemptOutcome::QueueError(e) => (t, Err(e)),
                        _ => ((Surface { pending: true, ..t }), Ok(true)),
                    }
                }
            },
        }
    }
}

/// The actions one surface's render result asks of the event loop.
pub open spec fn actions_for(
    r: Result<bool, RenderError>,
    device_id: u64,
    crtc: u32,
    time_ms: u32,
) -> Seq<RenderAction> {
    match r {
        Ok(_) => seq![(RenderAction::SendFrames { time_ms })],
        Err(e) => if e is ContextLost {
            seq![(RenderAction::Fatal { device_id, crtc })]
        } else if spec_reschedule(e) {
            seq![
                (RenderAction::ScheduleRetry { device_id, crtc, delay_ms: RETRY_INTERVAL_MS })
            ]
        } else {
            Seq::empty()
        },
    }
}

/// A whole-device render pass from surface `k` on: each surface steps as
/// [`spec_render_surface`] says; a lost context aborts the pass, because
/// the process terminates.
pub open spec fn spec_render_pass(
    surfaces: Seq<Surface>,
    outs: Seq<OutputView>,
    device_id: u64,
    completed: bool,
    outcomes: Seq<AttemptOutcome>,
    time_ms: u32,
    k: int,
) -> (Seq<Surface>, Seq<RenderAction>)
    decreases surfaces.len() - k,
{
    if k < 0 || k >= surfaces.len() {
        (surfaces, Seq::empty())
    } else {
        let sv = surfaces[k];
        let step = spec_render_surface(
            sv,
            output_mapped(outs, device_id, sv.crtc),
            completed,
            outcomes[k],
        );
        let updated = surfaces.update(k, step.0);
        let acts = actions_for(step.1, device_id, sv.crtc, time_ms);
        if step.1 == Err::<bool, RenderError>(RenderError::ContextLost) {
            (updated, acts)
        } else {
            let rest = spec_render_pass(
                updated,
                outs,
                device_id,
                completed,
                outcomes,
                time_ms,
                k + 1,
            );
            (rest.0, acts + rest.1)
        }
    }
}

/// Whether device `di` holds surface `si` for (`device_id`, `crtc`).
pub open spec fn is_surface_at(
    v: StateView,
    device_id: u64,
    crtc: u32,
    di: int,
    si: int,
) -> bool {
    &&& 0 <= di < v.devices.len()
    &&& v.devices[di].id == device_id
    &&& 0 <= si < v.devices[di].surfaces.len()
    &&& v.devices[di].surfaces[si].crtc == crtc
}

/// Whether any device holds a surface for (`device_id`, `crtc`).
pub open spec fn has_surface(v: StateView, device_id: u64, crtc: u32) -> bool {
    exists|di: int, si: int| is_surface_at(v, device_id, crtc, di, si)
}

/// The importable buffer formats of all devices from index `k` on, in
/// device order, duplicates kept.
pub open spec fn all_formats(devs: Seq<DeviceView>, k: int) -> Seq<u64>
    decreases devs.len() - k,
{
    if k < 0 || k >= devs.len() {
        Seq::empty()
    } else {
        devs[k].formats + all_formats(devs, k + 1)
    }
}

/// A render never overlaps itself: when a surface's previous buffer is
/// still in flight and no completion signal has arrived, the attempt is
/// rejected — it never reports a queued frame, and the in-flight buffer
/// stays in flight on the still-mapped surface.
pub proof fn lemma_render_no_self_overlap(sv: Surface, mapped: bool, outcome: AttemptOutcome)
    requires
        sv.pending,
    ensures
        spec_render_surface(sv, mapped, false, outcome).1 != Ok::<bool, RenderError>(true),
        spec_render_surface(sv, mapped, false, outcome).0.pending,
        spec_render_surface(sv, mapped, false, outcome).0.crtc == sv.crtc,
{
}

/// The compositor's device / surface / output graph.
pub struct BackendState {
    devices: Vec<Device>,
    outputs: OutputMap,
    primary: Option<u64>,
}

impl View for BackendState {
    type V = StateView;

    closed spec fn view(&self) -> StateView {
        StateView {
            devices: self.devices@.map_values(|d: Device| d@),
            outputs: self.outputs@,
            primary: self.primary,
        }
    }
}

impl BackendState {
    /// Validity of the state.
    pub open spec fn wf(self) -> bool {
        state_wf(self@)
    }

    /// Creates an empty backend: no devices, no outputs, no primary role.
    pub fn new() -> (r: BackendState)
        ensures
            r@.devices == Seq::<DeviceView>::empty(),
            r@.outputs == Seq::<OutputView>::empty(),
            r@.primary is None,
            r.wf(),
    {
        let r = BackendState {
            devices: Vec::new(),
            outputs: OutputMap::new(),
            primary: None,
        };
        proof {
            assert(r@.devices =~= Seq::<DeviceView>::empty());
        }
        r
    }

    /// The device currently holding the primary-presentation role.
    pub fn primary_device(&self) -> (r: Option<u64>)
        ensures
            r == self@.primary,
    {
        self.primary
    }

    /// The number of open devices.
    pub fn device_count(&self) -> (r: usize)
        ensures
            r == self@.devices.len(),
    {
        self.devices.len()
    }

    /// Read access to the output map.
    pub fn outputs(&self) -> (r: &OutputMap)
        ensures
            r@ == self@.outputs,
    {
        &self.outputs
    }

    /// The index of the device with the given id.
    fn find_device(&self, device_id: u64) -> (r: Option<usize>)
        ensures
            match r {
                Some(di) => di < self@.devices.len() && self@.devices[di as int].id == device_id,
                None => !has_device(self@.devices, device_id),
            },
    {
        let mut i: usize = 0;
        while i < self.devices.len()
            invariant
                i <= self@.devices.len(),
                forall|k: int| 0 <= k < i ==> (#[trigger] self@.devices[k]).id != device_id,
            decreases self@.devices.len() - i,
        {
            let d: &Device = &self.devices[i];
            proof {
                assert(d@ == self@.devices[i as int]);
            }
            if d.id == device_id {
                return Some(i);
            }
            i = i + 1;
        }
        None
    }

    /// Rebuilds a device's pipelines in place after its monitors changed:
    /// the outputs backed by the device are dropped from the map, the
    /// resolver runs again over the new resources, and the device's
    /// surface set is replaced wholesale.  Returns the CRTCs whose new
    /// surfaces need their initial render.  Changing an unknown device
    /// does nothing.
    pub fn device_changed(
        &mut self,
        device_id: u64,
        res: &DeviceResources,
        choices: &Vec<Option<usize>>,
        failed: &Vec<FailedAttempt>,
    ) -> (initial: Vec<u32>)
        requires
            old(self).wf(),
            choices@.len() == res.connectors@.len(),
            res_wf(*res),
            total_width(drop_device(old(self)@.outputs, device_id)) + total_width(
                added_outputs(*res, device_id, scan_result(*res, choices@, failed@)),
            ) <= i32::MAX,
        ensures
            final(self).wf(),
            !has_device(old(self)@.devices, device_id) ==> *final(self) == *old(self) && initial@
                == Seq::<u32>::empty(),
            forall|di: int|
                0 <= di < old(self)@.devices.len() && (#[trigger] old(self)@.devices[di]).id
                    == device_id ==> {
                    let asgs = scan_result(*res, choices@, failed@);
                    &&& final(self)@.devices == old(self)@.devices.update(
                        di,
                        (DeviceView {
                            id: device_id,
                            surfaces: added_surfaces(asgs),
                            formats: old(self)@.devices[di].formats,
                        }),
                    )
                    &&& final(self)@.outputs == arranged(
                        drop_device(old(self)@.outputs, device_id) + added_outputs(
                            *res,
                            device_id,
                            asgs,
                        ),
                    )
                    &&& initial@ == asgs.map_values(|a: Assignment| a.crtc)
                },
            final(self)@.primary == old(self)@.primary,
    {
        let ghost orig = self@;
        match self.find_device(device_id) {
            None => Vec::new(),
            Some(di) => {
                let ncon: usize = res.connectors.len();
                let ghost dropped = drop_device(orig.outputs, device_id);
                self.outputs.retain_not_device(device_id);
                let assignments = scan_connectors(res, choices, failed);
                let ghost asgs = assignments@;
                let ghost added = added_outputs(*res, device_id, asgs);
                proof {
                    assert(res.connectors@.len() == ncon);
                    lemma_scan_result_valid(res, choices@, failed@);
                    lemma_drop_device(orig.outputs, device_id);
                    lemma_arranged_pointwise(dropped);
                    lemma_total_width_same_sizes(dropped, arranged(dropped));
                }
                let (surfaces, initial) = self.add_scan_outputs(device_id, res, &assignments);
                let d: &mut Device = &mut self.devices[di];
                d.surfaces = surfaces;
                proof {
                    assert(self@.devices =~= orig.devices.update(
                        di as int,
                        (DeviceView {
                            id: device_id,
                            surfaces: added_surfaces(asgs),
                            formats: orig.devices[di as int].formats,
                        }),
                    ));
                    if asgs.len() == 0 {
                        assert(added =~= Seq::<OutputView>::empty());
                        assert(dropped + added =~= dropped);
                        assert(self@.outputs == arranged(dropped + added));
                    } else {
                        lemma_arranged_extend(dropped, added);
                        assert(arranged(dropped) + added =~= arranged(dropped) + added);
                        assert(self@.outputs == arranged(arranged(dropped) + added));
                        assert(arranged(arranged(dropped) + added) == arranged(dropped + added));
                    }
                    self.lemma_after_changed(orig, device_id, *res, asgs, di as int);
                }
                initial
            },
        }
    }

    /// Re-establishes the state invariant after a device change.
    proof fn lemma_after_changed(
        &self,
        pre: StateView,
        device_id: u64,
        res: DeviceResources,
        asgs: Seq<Assignment>,
        di: int,
    )
        requires
            state_wf(pre),
            0 <= di < pre.devices.len(),
            pre.devices[di].id == device_id,
            res_wf(res),
            forall|k: int|
                0 <= k < asgs.len() ==> (#[trigger] asgs[k]).connector < res.connectors@.len()
                    && asgs[k].mode_idx < res.connectors@[asgs[k].connector as int].modes@.len(),
            forall|k1: int, k2: int|
                0 <= k1 < k2 < asgs.len() ==> (#[trigger] asgs[k1]).crtc != (
                #[trigger] asgs[k2]).crtc,
            total_width(drop_device(pre.outputs, device_id)) + total_width(
                added_outputs(res, device_id, asgs),
            ) <= i32::MAX,
            self@.devices == pre.devices.update(
                di,
                (DeviceView {
                    id: device_id,
                    surfaces: added_surfaces(asgs),
                    formats: pre.devices[di].formats,
                }),
            ),
            self@.outputs == arranged(
                drop_device(pre.outputs, device_id) + added_outputs(res, device_id, asgs),
            ),
            self@.primary == pre.primary,
        ensures
            state_wf(self@),
    {
        let v = self@;
        let dropped = drop_device(pre.outputs, device_id);
        let added = added_outputs(res, device_id, asgs);
        let combined = dropped + added;
        lemma_drop_device(pre.outputs, device_id);
        lemma_added_outputs_props(res, device_id, asgs);
        lemma_added_outputs_tags(res, device_id, asgs);
        lemma_added_outputs_wf(res, device_id, asgs);
        lemma_arranged_pointwise(combined);
        assert(outputs_wf(combined));
        lemma_total_width_same_sizes(combined, arranged(combined));
        lemma_seq_concat(dropped, added, device_id);
        assert(outputs_ok(v.outputs));
        // Ids are unchanged, index for index.
        assert(forall|k: int|
            0 <= k < v.devices.len() ==> (#[trigger] v.devices[k]).id == pre.devices[k].id);
        assert forall|d: int| 0 <= d < v.devices.len() implies tagged_crtcs(
            v.outputs,
            (#[trigger] v.devices[d]).id,
        ) == surface_crtcs(v.devices[d].surfaces) by {
            let id = v.devices[d].id;
            lemma_tagged_crtcs_same_tags(combined, arranged(combined), id);
            lemma_seq_concat(dropped, added, id);
            assert(tagged_crtcs(v.outputs, id) == tagged_crtcs(dropped, id) + tagged_crtcs(
                added,
                id,
            ));
            if d == di {
                assert(id == device_id);
                assert(tagged_crtcs(dropped, device_id) == Seq::<u32>::empty());
                assert(tagged_crtcs(v.outputs, id) =~= asgs.map_values(|a: Assignment| a.crtc));
                assert(surface_crtcs(added_surfaces(asgs)) =~= asgs.map_values(
                    |a: Assignment| a.crtc,
                ));
            } else {
                assert(v.devices[d] == pre.devices[d]);
                assert(id != device_id) by {
                    if d < di {
                        assert(pre.devices[d].id != pre.devices[di].id);
                    } else {
                        assert(pre.devices[di].id != pre.devices[d].id);
                    }
                }
                assert(tagged_crtcs(dropped, id) == tagged_crtcs(pre.outputs, id));
                assert(tagged_crtcs(added, id) == Seq::<u32>::empty());
                assert(tagged_crtcs(v.outputs, id) =~= tagged_crtcs(pre.outputs, id));
            }
        }
        assert forall|d: int, s1: int, s2: int|
            0 <= d < v.devices.len() && 0 <= s1 < s2 < v.devices[d].surfaces.len() implies (
        #[trigger] v.devices[d].surfaces[s1]).crtc != (#[trigger] v.devices[d].surfaces[s2]).crtc
            by {
            if d == di {
                assert(v.devices[d].surfaces == added_surfaces(asgs));
                assert(v.devices[d].surfaces[s1].crtc == asgs[s1].crtc);
                assert(v.devices[d].surfaces[s2].crtc == asgs[s2].crtc);
            } else {
                assert(v.devices[d] == pre.devices[d]);
            }
        }
        assert forall|i: int|
            0 <= i < v.outputs.len() && (#[trigger] v.outputs[i]).tag is Some implies has_device(
            v.devices,
            v.outputs[i].tag->Some_0.device_id,
        ) by {
            if v.outputs[i].tag is Some {
                assert(v.outputs[i].tag == combined[i].tag);
                let tid = v.outputs[i].tag->Some_0.device_id;
                if i < dropped.len() {
                    assert(combined[i] == dropped[i]);
                    assert(pre.outputs.contains(dropped[i]));
                    let j = choose|j: int|
                        0 <= j < pre.outputs.len() && pre.outputs[j] == dropped[i];
                    assert(pre.outputs[j].tag is Some);
                    assert(has_device(pre.devices, tid));
                    let kk = choose|kk: int|
                        0 <= kk < pre.devices.len() && (#[trigger] pre.devices[kk]).id == tid;
                    assert(v.devices[kk].id == tid);
                } else {
                    assert(combined[i] == added[i - dropped.len()]);
                    assert(added[i - dropped.len()] == output_of(
                        res,
                        device_id,
                        asgs[i - dropped.len()],
                    ));
                    assert(tid == device_id);
                    assert(v.devices[di].id == device_id);
                }
            }
        }
        if v.primary is Some {
            let p = v.primary->Some_0;
            assert(has_device(pre.devices, p));
            let kk = choose|kk: int|
                0 <= kk < pre.devices.len() && (#[trigger] pre.devices[kk]).id == p;
            assert(v.devices[kk].id == p);
        }
    }

    /// Tears a device down: drops all its surfaces, removes its outputs
    /// from the map, and revokes the primary-presentation role if this
    /// device held it.  Afterwards no output carries a backward tag
    /// referencing the device.  Removing an unknown device changes
    /// nothing.
    pub fn device_removed(&mut self, device_id: u64)
        requires
            old(self).wf(),
        ensures
            final(self).wf(),
            !has_device(old(self)@.devices, device_id) ==> *final(self) == *old(self),
            forall|di: int|
                0 <= di < old(self)@.devices.len() && (#[trigger] old(self)@.devices[di]).id
                    == device_id ==> final(self)@.devices == old(self)@.devices.remove(di),
            has_device(old(self)@.devices, device_id) ==> final(self)@.outputs == arranged(
                drop_device(old(self)@.outputs, device_id),
            ),
            forall|i: int|
                0 <= i < final(self)@.outputs.len() ==> !(#[trigger] final(self)@.outputs[i])
                    .tagged_with(device_id),
            final(self)@.primary == if old(self)@.primary == Some(device_id) {
                Option::<u64>::None
            } else {
                old(self)@.primary
            },
            !has_device(final(self)@.devices, device_id),
    {
        let ghost pre = self@;
        match self.find_device(device_id) {
            None => {
                proof {
                    assert forall|i: int| 0 <= i < self@.outputs.len() implies !(
                    #[trigger] self@.outputs[i]).tagged_with(device_id) by {
                        if self@.outputs[i].tag is Some {
                            assert(has_device(
                                self@.devices,
                                self@.outputs[i].tag->Some_0.device_id,
                            ));
                        }
                    }
                    assert(self@.primary != Some(device_id));
                }
            },
            Some(di) => {
                let _ = self.devices.remove(di);
                self.outputs.retain_not_device(device_id);
                match self.primary {
                    Some(p) => {
                        if p == device_id {
                            self.primary = None;
                        }
                    },
                    None => {},
                }
                proof {
                    let devs = pre.devices;
                    assert(self@.devices =~= devs.remove(di as int));
                    lemma_drop_device(pre.outputs, device_id);
                    lemma_arranged_pointwise(drop_device(pre.outputs, device_id));
                    self.lemma_after_removal(pre, device_id, di as int);
                }
            },
        }
    }

    /// Registers one output per accepted pipeline and builds the matching
    /// surface set; the output map is rearranged as each output joins it.
    fn add_scan_outputs(
        &mut self,
        device_id: u64,
        res: &DeviceResources,
        assignments: &Vec<Assignment>,
    ) -> (r: (Vec<Surface>, Vec<u32>))
        requires
            res_wf(*res),
            outputs_ok(old(self)@.outputs),
            forall|kk: int|
                0 <= kk < assignments@.len() ==> (#[trigger] assignments@[kk]).connector
                    < res.connectors@.len() && assignments@[kk].mode_idx < res.connectors@[
                    assignments@[kk].connector as int
                ].modes@.len(),
            total_width(old(self)@.outputs) + total_width(
                added_outputs(*res, device_id, assignments@),
            ) <= i32::MAX,
        ensures
            final(self)@.devices == old(self)@.devices,
            final(self)@.primary == old(self)@.primary,
            final(self)@.outputs == if assignments@.len() == 0 {
                old(self)@.outputs
            } else {
                arranged(old(self)@.outputs + added_outputs(*res, device_id, assignments@))
            },
            outputs_ok(final(self)@.outputs),
            r.0@ == added_surfaces(assignments@),
            r.1@ == assignments@.map_values(|a: Assignment| a.crtc),
    {
        let ghost orig = self@;
        let ghost asgs = assignments@;
        let ghost added = added_outputs(*res, device_id, asgs);
        proof {
            lemma_added_outputs_props(*res, device_id, asgs);
            lemma_added_outputs_wf(*res, device_id, asgs);
        }
        let mut surfaces: Vec<Surface> = Vec::new();
        let mut initial: Vec<u32> = Vec::new();
        let mut k: usize = 0;
        proof {
            assert(asgs.take(0) =~= Seq::<Assignment>::empty());
            assert(surfaces@ =~= added_surfaces(asgs.take(0)));
            assert(initial@ =~= asgs.take(0).map_values(|a: Assignment| a.crtc));
        }
        while k < assignments.len()
            invariant
                self@.devices == orig.devices,
                self@.primary == orig.primary,
                res_wf(*res),
                asgs == assignments@,
                added == added_outputs(*res, device_id, asgs),
                added.len() == asgs.len(),
                outputs_wf(added),
                forall|kk: int|
                    0 <= kk < asgs.len() ==> #[trigger] added[kk] == output_of(
                        *res,
                        device_id,
                        asgs[kk],
                    ),
                forall|kk: int|
                    0 <= kk < asgs.len() ==> (#[trigger] asgs[kk]).connector
                        < res.connectors@.len() && asgs[kk].mode_idx < res.connectors@[asgs[
                        kk
                    ].connector as int].modes@.len(),
                total_width(orig.outputs) + total_width(added) <= i32::MAX,
                outputs_ok(orig.outputs),
                k <= asgs.len(),
                surfaces@ == added_surfaces(asgs.take(k as int)),
                initial@ == asgs.take(k as int).map_values(|a: Assignment| a.crtc),
                self@.outputs == if k == 0 {
                    orig.outputs
                } else {
                    arranged(orig.outputs + added_outputs(*res, device_id, asgs.take(k as int)))
                },
                outputs_ok(self@.outputs),
            decreases asgs.len() - k,
        {
            let ghost tk = asgs.take(k as int);
            let ghost addedk = added_outputs(*res, device_id, tk);
            proof {
                assert(forall|j: int| 0 <= j < k ==> tk[j] == asgs[j]);
                lemma_added_outputs_props(*res, device_id, tk);
                assert(addedk =~= added.take(k as int));
            }
            let a = assignments[k];
            proof {
                assert(asgs[k as int] == a);
                assert(connector_wf(res.connectors@[a.connector as int]));
            }
            let c = &res.connectors[a.connector];
            proof {
                assert(*c == res.connectors@[a.connector as int]);
            }
            let name = output_name(c.interface, c.interface_id);
            let mode = mode_of(c.modes[a.mode_idx]);
            let phys: Size = match c.phys_size_mm {
                Some(p) => Size { w: p.0 as i32, h: p.1 as i32 },
                None => Size { w: 0, h: 0 },
            };
            let o = Output::new(
                name.as_str(),
                Point { x: 0, y: 0 },
                phys,
                mode,
                String::new(),
                Some(OutputTag { device_id, crtc: a.crtc }),
            );
            proof {
                assert(o@ == output_of(*res, device_id, a));
                assert(o@ == added[k as int]);
                // Width of the map stays within range: the new output's
                // width joins a prefix sum bounded by the full sum.
                crate::output_map::lemma_total_width_take_succ(added, k as int);
                lemma_total_width_prefix_le(added, k as int + 1);
                lemma_total_width_nonneg(added.take(k as int));
                lemma_total_width_nonneg(orig.outputs);
                if k > 0 {
                    lemma_total_width_same_sizes(
                        orig.outputs + addedk,
                        arranged(orig.outputs + addedk),
                    );
                    lemma_seq_concat(orig.outputs, addedk, device_id);
                }
                assert(total_width(self@.outputs) + o@.spec_size().w <= i32::MAX);
            }
            self.outputs.add(o);
            proof {
                let ghost tk1 = asgs.take(k as int + 1);
                let ghost addedk1 = added_outputs(*res, device_id, tk1);
                assert(forall|j: int| 0 <= j < k + 1 ==> tk1[j] == asgs[j]);
                lemma_added_outputs_props(*res, device_id, tk1);
                assert(addedk1 =~= added.take(k as int + 1));
                assert(addedk1 =~= addedk + seq![o@]);
                if k == 0 {
                    assert(addedk =~= Seq::<OutputView>::empty());
                    assert(orig.outputs + seq![o@] =~= orig.outputs + addedk1);
                    assert(self@.outputs == arranged(orig.outputs + addedk1));
                } else {
                    lemma_arranged_extend(orig.outputs + addedk, seq![o@]);
                    assert((orig.outputs + addedk) + seq![o@] =~= orig.outputs + addedk1);
                    assert(self@.outputs == arranged(orig.outputs + addedk1));
                }
            }
            surfaces.push(Surface { crtc: a.crtc, pending: false, frames: 0 });
            initial.push(a.crtc);
            proof {
                assert(surfaces@ =~= added_surfaces(asgs.take(k as int + 1)));
                assert(initial@ =~= asgs.take(k as int + 1).map_values(|a: Assignment| a.crtc));
            }
            k = k + 1;
        }
        proof {
            assert(asgs.take(asgs.len() as int) =~= asgs);
        }
        (surfaces, initial)
    }

    /// Opens a device: runs the display pipeline resolver over its
    /// resources, creates one surface and registers one output per
    /// accepted pipeline, and, when the device is the designated primary
    /// GPU, takes the primary-presentation role.  Returns the CRTCs whose
    /// surfaces need their one-time initial (blanking) render.
    ///
    /// The caller has already opened the device node and built its
    /// allocator and render context; a device whose setup failed is simply
    /// never added, so no partial state exists for it.  `choices` holds
    /// the mode-selection policy's answer per connector, and `failed` the
    /// surface-creation attempts the caller has seen fail.
    pub fn device_added(
        &mut self,
        device_id: u64,
        res: &DeviceResources,
        choices: &Vec<Option<usize>>,
        failed: &Vec<FailedAttempt>,
        formats: Vec<u64>,
        is_primary: bool,
    ) -> (initial: Vec<u32>)
        requires
            old(self).wf(),
            !has_device(old(self)@.devices, device_id),
            choices@.len() == res.connectors@.len(),
            res_wf(*res),
            is_primary ==> old(self)@.primary is None,
            total_width(old(self)@.outputs) + total_width(
                added_outputs(*res, device_id, scan_result(*res, choices@, failed@)),
            ) <= i32::MAX,
        ensures
            final(self).wf(),
            ({
                let asgs = scan_result(*res, choices@, failed@);
                &&& final(self)@.devices == old(self)@.devices + seq![
                    (DeviceView {
                        id: device_id,
                        surfaces: added_surfaces(asgs),
                        formats: formats@,
                    })
                ]
                &&& final(self)@.outputs == if asgs.len() == 0 {
                    old(self)@.outputs
                } else {
                    arranged(old(self)@.outputs + added_outputs(*res, device_id, asgs))
                }
                &&& initial@ == asgs.map_values(|a: Assignment| a.crtc)
            }),
            final(self)@.primary == if is_primary {
                Some(device_id)
            } else {
                old(self)@.primary
            },
    {
        let ghost orig = self@;
        let ncon: usize = res.connectors.len();
        let assignments = scan_connectors(res, choices, failed);
        let ghost asgs = assignments@;
        let ghost added = added_outputs(*res, device_id, asgs);
        proof {
            assert(res.connectors@.len() == ncon);
            lemma_scan_result_valid(res, choices@, failed@);
            lemma_added_outputs_props(*res, device_id, asgs);
            lemma_added_outputs_tags(*res, device_id, asgs);
            lemma_added_outputs_wf(*res, device_id, asgs);
        }
        let (surfaces, initial) = self.add_scan_outputs(device_id, res, &assignments);
        let dev = Device { id: device_id, surfaces, formats };
        self.devices.push(dev);
        if is_primary {
            self.primary = Some(device_id);
        }
        proof {
            assert(asgs.take(asgs.len() as int) =~= asgs);
            assert(self@.devices =~= orig.devices + seq![
                (DeviceView { id: device_id, surfaces: added_surfaces(asgs), formats: formats@ })
            ]);
            self.lemma_after_added(orig, device_id, *res, asgs, formats@, is_primary);
        }
        initial
    }

    /// Re-establishes the state invariant after a device was added.
    proof fn lemma_after_added(
        &self,
        pre: StateView,
        device_id: u64,
        res: DeviceResources,
        asgs: Seq<Assignment>,
        formats: Seq<u64>,
        is_primary: bool,
    )
        requires
            state_wf(pre),
            !has_device(pre.devices, device_id),
            res_wf(res),
            forall|k: int|
                0 <= k < asgs.len() ==> (#[trigger] asgs[k]).connector < res.connectors@.len()
                    && asgs[k].mode_idx < res.connectors@[asgs[k].connector as int].modes@.len(),
            forall|k1: int, k2: int|
                0 <= k1 < k2 < asgs.len() ==> (#[trigger] asgs[k1]).crtc != (
                #[trigger] asgs[k2]).crtc,
            total_width(pre.outputs) + total_width(added_outputs(res, device_id, asgs))
                <= i32::MAX,
            self@.devices == pre.devices + seq![
                (DeviceView { id: device_id, surfaces: added_surfaces(asgs), formats: formats })
            ],
            self@.outputs == if asgs.len() == 0 {
                pre.outputs
            } else {
                arranged(pre.outputs + added_outputs(res, device_id, asgs))
            },
            self@.primary == if is_primary {
                Some(device_id)
            } else {
                pre.primary
            },
            is_primary ==> pre.primary is None,
        ensures
            state_wf(self@),
    {
        let v = self@;
        let added = added_outputs(res, device_id, asgs);
        let combined = pre.outputs + added;
        lemma_added_outputs_props(res, device_id, asgs);
        lemma_added_outputs_tags(res, device_id, asgs);
        lemma_added_outputs_wf(res, device_id, asgs);
        lemma_seq_concat(pre.outputs, added, device_id);
        // No output of the old map is tagged with the fresh device id.
        assert forall|i: int| 0 <= i < pre.outputs.len() implies !(#[trigger] pre.outputs[i])
            .tagged_with(device_id) by {
            if pre.outputs[i].tag is Some {
                assert(has_device(pre.devices, pre.outputs[i].tag->Some_0.device_id));
            }
        }
        lemma_tagged_crtcs_empty(pre.outputs, device_id);
        // The new device sequence: old devices keep their indices.
        assert(forall|k: int| 0 <= k < pre.devices.len() ==> #[trigger] v.devices[k]
            == pre.devices[k]);
        assert(v.devices[pre.devices.len() as int] == (DeviceView {
            id: device_id,
            surfaces: added_surfaces(asgs),
            formats: formats,
        }));
        assert forall|k: int| 0 <= k < pre.devices.len() implies (#[trigger] pre.devices[k]).id
            != device_id by {}
        if asgs.len() == 0 {
            assert(added =~= Seq::<OutputView>::empty());
            assert(surface_crtcs(added_surfaces(asgs)) =~= Seq::<u32>::empty());
            assert(tagged_crtcs(v.outputs, device_id) == Seq::<u32>::empty());
            assert forall|d: int| 0 <= d < v.devices.len() implies tagged_crtcs(
                v.outputs,
                (#[trigger] v.devices[d]).id,
            ) == surface_crtcs(v.devices[d].surfaces) by {
                if d < pre.devices.len() {
                    assert(v.devices[d] == pre.devices[d]);
                } else {
                    assert(v.devices[d].id == device_id);
                }
            }
            assert forall|i: int|
                0 <= i < v.outputs.len() && (#[trigger] v.outputs[i]).tag is Some implies
                has_device(v.devices, v.outputs[i].tag->Some_0.device_id) by {
                if v.outputs[i].tag is Some {
                    let tid = v.outputs[i].tag->Some_0.device_id;
                    assert(has_device(pre.devices, tid));
                    let kk = choose|kk: int|
                        0 <= kk < pre.devices.len() && (#[trigger] pre.devices[kk]).id == tid;
                    assert(v.devices[kk].id == tid);
                }
            }
        } else {
            lemma_arranged_pointwise(combined);
            lemma_tagged_crtcs_same_tags(combined, arranged(combined), device_id);
            assert(outputs_wf(combined));
            lemma_total_width_same_sizes(combined, arranged(combined));
            assert(outputs_ok(v.outputs));
            assert forall|d: int| 0 <= d < v.devices.len() implies tagged_crtcs(
                v.outputs,
                (#[trigger] v.devices[d]).id,
            ) == surface_crtcs(v.devices[d].surfaces) by {
                let id = v.devices[d].id;
                lemma_tagged_crtcs_same_tags(combined, arranged(combined), id);
                lemma_seq_concat(pre.outputs, added, id);
                assert(tagged_crtcs(v.outputs, id) == tagged_crtcs(pre.outputs, id)
                    + tagged_crtcs(added, id));
                if d < pre.devices.len() {
                    assert(v.devices[d] == pre.devices[d]);
                    assert(id != device_id);
                    assert(tagged_crtcs(added, id) == Seq::<u32>::empty());
                    assert(tagged_crtcs(v.outputs, id) =~= tagged_crtcs(pre.outputs, id));
                } else {
                    assert(id == device_id);
                    assert(tagged_crtcs(pre.outputs, device_id) == Seq::<u32>::empty());
                    assert(tagged_crtcs(v.outputs, id) =~= asgs.map_values(
                        |a: Assignment| a.crtc,
                    ));
                    assert(surface_crtcs(added_surfaces(asgs)) =~= asgs.map_values(
                        |a: Assignment| a.crtc,
                    ));
                }
            }
            assert forall|d: int, s1: int, s2: int|
                0 <= d < v.devices.len() && 0 <= s1 < s2 < v.devices[d].surfaces.len() implies (
            #[trigger] v.devices[d].surfaces[s1]).crtc != (
            #[trigger] v.devices[d].surfaces[s2]).crtc by {
                if d < pre.devices.len() {
                    assert(v.devices[d] == pre.devices[d]);
                } else {
                    assert(v.devices[d].surfaces == added_surfaces(asgs));
                    assert(v.devices[d].surfaces[s1].crtc == asgs[s1].crtc);
                    assert(v.devices[d].surfaces[s2].crtc == asgs[s2].crtc);
                }
            }
            assert forall|i: int|
                0 <= i < v.outputs.len() && (#[trigger] v.outputs[i]).tag is Some implies
                has_device(v.devices, v.outputs[i].tag->Some_0.device_id) by {
                if v.outputs[i].tag is Some {
                    assert(v.outputs[i].tag == combined[i].tag);
                    let tid = v.outputs[i].tag->Some_0.device_id;
                    if i < pre.outputs.len() {
                        assert(combined[i] == pre.outputs[i]);
                        assert(has_device(pre.devices, tid));
                        let kk = choose|kk: int|
                            0 <= kk < pre.devices.len() && (#[trigger] pre.devices[kk]).id == tid;
                        assert(v.devices[kk].id == tid);
                    } else {
                        assert(combined[i] == added[i - pre.outputs.len()]);
                        assert(added[i - pre.outputs.len()] == output_of(
                            res,
                            device_id,
                            asgs[i - pre.outputs.len()],
                        ));
                        assert(tid == device_id);
                        assert(v.devices[pre.devices.len() as int].id == device_id);
                    }
                }
            }
        }
        if v.primary is Some {
            let p = v.primary->Some_0;
            if is_primary {
                assert(v.devices[pre.devices.len() as int].id == device_id);
            } else {
                assert(has_device(pre.devices, p));
                let kk = choose|kk: int|
                    0 <= kk < pre.devices.len() && (#[trigger] pre.devices[kk]).id == p;
                assert(v.devices[kk].id == p);
            }
        }
    }

    /// The index of the surface driving `crtc` on the device at `di`.
    fn find_surface_idx(&self, di: usize, crtc: u32) -> (r: Option<usize>)
        requires
            di < self@.devices.len(),
        ensures
            match r {
                Some(si) => si < self@.devices[di as int].surfaces.len()
                    && self@.devices[di as int].surfaces[si as int].crtc == crtc,
                None => forall|si: int|
                    0 <= si < self@.devices[di as int].surfaces.len() ==> (
                    #[trigger] self@.devices[di as int].surfaces[si]).crtc != crtc,
            },
    {
        let d: &Device = &self.devices[di];
        proof {
            assert(d@ == self@.devices[di as int]);
        }
        let mut si: usize = 0;
        while si < d.surfaces.len()
            invariant
                d@ == self@.devices[di as int],
                si <= d@.surfaces.len(),
                forall|k: int| 0 <= k < si ==> (#[trigger] d@.surfaces[k]).crtc != crtc,
            decreases d@.surfaces.len() - si,
        {
            if d.surfaces[si].crtc == crtc {
                return Some(si);
            }
            si = si + 1;
        }
        None
    }

    /// Renders one surface: acknowledges the previous frame when a
    /// completion signal triggered this pass, resolves the output mapped
    /// to (`device_id`, `crtc`) — silently succeeding when a removal race
    /// left none — composes the frame and queues it for presentation.
    /// `outcome` reports what the caller's hardware calls did for this
    /// attempt.
    ///
    /// A surface whose previous buffer is still in flight is rejected
    /// with `AlreadySwapped` rather than queueing (and never acquires) a
    /// second buffer, so a render can never overlap itself.
    pub fn render_surface(
        &mut self,
        device_id: u64,
        crtc: u32,
        completed: bool,
        outcome: AttemptOutcome,
    ) -> (r: Result<bool, RenderError>)
        requires
            old(self).wf(),
        ensures
            final(self).wf(),
            final(self)@.outputs == old(self)@.outputs,
            final(self)@.primary == old(self)@.primary,
            final(self)@.devices.len() == old(self)@.devices.len(),
            forall|k: int|
                0 <= k < old(self)@.devices.len() ==> (#[trigger] final(self)@.devices[k]).id
                    == old(self)@.devices[k].id,
            !has_surface(old(self)@, device_id, crtc) ==> *final(self) == *old(self) && r
                == Ok::<bool, RenderError>(false),
            forall|di: int, si: int|
                is_surface_at(old(self)@, device_id, crtc, di, si) ==> ({
                    let step = spec_render_surface(
                        old(self)@.devices[di].surfaces[si],
                        output_mapped(old(self)@.outputs, device_id, crtc),
                        completed,
                        outcome,
                    );
                    &&& final(self)@.devices == old(self)@.devices.update(
                        di,
                        (DeviceView {
                            surfaces: old(self)@.devices[di].surfaces.update(si, step.0),
                            ..old(self)@.devices[di]
                        }),
                    )
                    &&& r == step.1
                }),
    {
        let ghost pre = self@;
        let di: usize = match self.find_device(device_id) {
            None => {
                proof {
                    if has_surface(pre, device_id, crtc) {
                        let (dj, sj) = choose|dj: int, sj: int|
                            is_surface_at(pre, device_id, crtc, dj, sj);
                        assert(has_device(pre.devices, device_id));
                    }
                }
                return Ok(false);
            },
            Some(di) => di,
        };
        let si: usize = match self.find_surface_idx(di, crtc) {
            None => {
                proof {
                    if has_surface(pre, device_id, crtc) {
                        let (dj, sj) = choose|dj: int, sj: int|
                            is_surface_at(pre, device_id, crtc, dj, sj);
                        assert(dj == di) by {
                            if dj < di {
                                assert(pre.devices[dj].id != pre.devices[di as int].id);
                            } else if di < dj {
                                assert(pre.devices[di as int].id != pre.devices[dj].id);
                            }
                        }
                        assert(pre.devices[di as int].surfaces[sj].crtc == crtc);
                    }
                }
                return Ok(false);
            },
            Some(si) => si,
        };
        let found: Option<usize> = self.outputs.find_by_tag(device_id, crtc);
        let mapped: bool = match found {
            Some(_) => true,
            None => false,
        };
        proof {
            if mapped {
                assert(has_tag(pre.outputs[found->Some_0 as int], device_id, crtc));
                assert(output_mapped(pre.outputs, device_id, crtc));
            } else {
                if output_mapped(pre.outputs, device_id, crtc) {
                    let i = choose|i: int|
                        0 <= i < pre.outputs.len() && has_tag(
                            #[trigger] pre.outputs[i],
                            device_id,
                            crtc,
                        );
                    assert(false);
                }
            }
        }
        let old_s: Surface = {
            let dref: &Device = &self.devices[di];
            proof {
                assert(dref@ == pre.devices[di as int]);
            }
            dref.surfaces[si]
        };
        let acked: Surface = if completed {
            Surface { pending: false, ..old_s }
        } else {
            old_s
        };
        let (new_s, r): (Surface, Result<bool, RenderError>) = if !mapped {
            (acked, Ok(false))
        } else {
            match outcome {
                AttemptOutcome::ComposeError(e) => (acked, Err(e)),
                _ => {
                    let t = Surface {
                        frames: if acked.frames < u64::MAX {
                            acked.frames + 1
                        } else {
                            u64::MAX
                        },
                        ..acked
                    };
                    if acked.pending {
                        (t, Err(RenderError::AlreadySwapped))
                    } else {
                        match outcome {
                            AttemptOutcome::QueueError(e) => (t, Err(e)),
                            _ => ((Surface { pending: true, ..t }), Ok(true)),
                        }
                    }
                },
            }
        };
        let d: &mut Device = &mut self.devices[di];
        d.surfaces.set(si, new_s);
        proof {
            let step = spec_render_surface(
                pre.devices[di as int].surfaces[si as int],
                output_mapped(pre.outputs, device_id, crtc),
                completed,
                outcome,
            );
            assert(new_s == step.0);
            assert(r == step.1);
            assert(self@.devices =~= pre.devices.update(
                di as int,
                (DeviceView {
                    surfaces: pre.devices[di as int].surfaces.update(si as int, new_s),
                    ..pre.devices[di as int]
                }),
            ));
            self.lemma_after_surface_update(pre, di as int, si as int, new_s);
            assert(is_surface_at(pre, device_id, crtc, di as int, si as int));
            assert forall|dj: int, sj: int|
                is_surface_at(pre, device_id, crtc, dj, sj) implies dj == di && sj == si by {
                if dj < di {
                    assert(pre.devices[dj].id != pre.devices[di as int].id);
                } else if di < dj {
                    assert(pre.devices[di as int].id != pre.devices[dj].id);
                }
                if sj < si {
                    assert(pre.devices[di as int].surfaces[sj].crtc != pre.devices[
                        di as int
                    ].surfaces[si as int].crtc);
                } else if si < sj {
                    assert(pre.devices[di as int].surfaces[si as int].crtc != pre.devices[
                        di as int
                    ].surfaces[sj].crtc);
                }
            }
        }
        r
    }

    /// Drives a render pass for a device: one surface when `crtc` names
    /// one (the vblank and retry-timer paths), or every surface the
    /// device owns (the idle re-render path).  `outcomes` reports, per
    /// targeted surface in order, what the caller's hardware calls did.
    /// Returns the actions the event loop must perform: a frame broadcast
    /// per successful surface, a fixed-interval retry per transient
    /// failure, and process termination on a lost context, which aborts
    /// the pass.  Rendering on an unknown device or CRTC does nothing — a
    /// retry timer that fires after teardown finds its surface gone and
    /// becomes a no-op.
    pub fn udev_render(
        &mut self,
        device_id: u64,
        crtc: Option<u32>,
        completed: bool,
        outcomes: &Vec<AttemptOutcome>,
        time_ms: u32,
    ) -> (actions: Vec<RenderAction>)
        requires
            old(self).wf(),
            crtc is Some ==> outcomes@.len() == 1,
            crtc is None ==> forall|di: int|
                0 <= di < old(self)@.devices.len() && (#[trigger] old(self)@.devices[di]).id
                    == device_id ==> outcomes@.len() == old(self)@.devices[di].surfaces.len(),
        ensures
            final(self).wf(),
            final(self)@.outputs == old(self)@.outputs,
            final(self)@.primary == old(self)@.primary,
            !has_device(old(self)@.devices, device_id) ==> *final(self) == *old(self) && actions@
                == Seq::<RenderAction>::empty(),
            forall|c: u32|
                crtc == Some(c) && !has_surface(old(self)@, device_id, c) ==> *final(self) == *old(
                    self,
                ) && actions@ == Seq::<RenderAction>::empty(),
            forall|di: int, si: int, c: u32|
                crtc == Some(c) && is_surface_at(old(self)@, device_id, c, di, si) ==> ({
                    let step = spec_render_surface(
                        old(self)@.devices[di].surfaces[si],
                        output_mapped(old(self)@.outputs, device_id, c),
                        completed,
                        outcomes@[0],
                    );
                    &&& final(self)@.devices == old(self)@.devices.update(
                        di,
                        (DeviceView {
                            surfaces: old(self)@.devices[di].surfaces.update(si, step.0),
                            ..old(self)@.devices[di]
                        }),
                    )
                    &&& actions@ == actions_for(step.1, device_id, c, time_ms)
                }),
            forall|di: int|
                crtc is None && 0 <= di < old(self)@.devices.len() && (
                #[trigger] old(self)@.devices[di]).id == device_id ==> ({
                    let pass = spec_render_pass(
                        old(self)@.devices[di].surfaces,
                        old(self)@.outputs,
                        device_id,
                        completed,
                        outcomes@,
                        time_ms,
                        0,
                    );
                    &&& final(self)@.devices == old(self)@.devices.update(
                        di,
                        (DeviceView { surfaces: pass.0, ..old(self)@.devices[di] }),
                    )
                    &&& actions@ == pass.1
                }),
    {
        let ghost pre = self@;
        let mut actions: Vec<RenderAction> = Vec::new();
        let di: usize = match self.find_device(device_id) {
            None => {
                proof {
                    assert(actions@ =~= Seq::<RenderAction>::empty());
                }
                return actions;
            },
            Some(di) => di,
        };
        match crtc {
            Some(c) => {
                match self.find_surface_idx(di, c) {
                    None => {
                        proof {
                            if has_surface(pre, device_id, c) {
                                let (dj, sj) = choose|dj: int, sj: int|
                                    is_surface_at(pre, device_id, c, dj, sj);
                                assert(dj == di) by {
                                    if dj < di {
                                        assert(pre.devices[dj].id != pre.devices[di as int].id);
                                    } else if di < dj {
                                        assert(pre.devices[di as int].id != pre.devices[dj].id);
                                    }
                                }
                                assert(pre.devices[di as int].surfaces[sj].crtc == c);
                            }
                            assert(actions@ =~= Seq::<RenderAction>::empty());
                        }
                        actions
                    },
                    Some(_si) => {
                        let result = self.render_surface(device_id, c, completed, outcomes[0]);
                        match result {
                            Ok(_) => {
                                actions.push(RenderAction::SendFrames { time_ms });
                            },
                            Err(e) => {
                                match e {
                                    RenderError::ContextLost => {
                                        actions.push(RenderAction::Fatal { device_id, crtc: c });
                                    },
                                    _ => {
                                        if reschedule_on(&e) {
                                            actions.push(
                                                RenderAction::ScheduleRetry {
                                                    device_id,
                                                    crtc: c,
                                                    delay_ms: RETRY_INTERVAL_MS,
                                                },
                                            );
                                        }
                                    },
                                }
                            },
                        }
                        proof {
                            assert(is_surface_at(pre, device_id, c, di as int, _si as int));
                            assert(actions@ =~= actions_for(result, device_id, c, time_ms));
                        }
                        actions
                    },
                }
            },
            None => {
                let ghost osurf = pre.devices[di as int].surfaces;
                let ghost pass = spec_render_pass(
                    osurf,
                    pre.outputs,
                    device_id,
                    completed,
                    outcomes@,
                    time_ms,
                    0,
                );
                let n: usize = {
                    let dref: &Device = &self.devices[di];
                    proof {
                        assert(dref@ == pre.devices[di as int]);
                    }
                    dref.surfaces.len()
                };
                let mut k: usize = 0;
                proof {
                    assert(self@.devices =~= pre.devices.update(
                        di as int,
                        (DeviceView {
                            surfaces: self@.devices[di as int].surfaces,
                            ..pre.devices[di as int]
                        }),
                    ));
                }
                while k < n
                    invariant
                        pre == old(self)@,
                        crtc is None,
                        self.wf(),
                        di < self@.devices.len(),
                        self@.devices.len() == pre.devices.len(),
                        self@.devices[di as int].id == device_id,
                        self@.outputs == pre.outputs,
                        self@.primary == pre.primary,
                        state_wf(pre),
                        0 <= (di as int) < pre.devices.len(),
                        pre.devices[di as int].id == device_id,
                        self@.devices == pre.devices.update(
                            di as int,
                            (DeviceView {
                                surfaces: self@.devices[di as int].surfaces,
                                ..pre.devices[di as int]
                            }),
                        ),
                        n == osurf.len(),
                        osurf == pre.devices[di as int].surfaces,
                        pass == spec_render_pass(
                            osurf,
                            pre.outputs,
                            device_id,
                            completed,
                            outcomes@,
                            time_ms,
                            0,
                        ),
                        self@.devices[di as int].surfaces.len() == n,
                        outcomes@.len() == n,
                        forall|j: int|
                            0 <= j < n ==> (#[trigger] self@.devices[di as int].surfaces[j]).crtc
                                == osurf[j].crtc,
                        k <= n,
                        pass.0 == spec_render_pass(
                            self@.devices[di as int].surfaces,
                            pre.outputs,
                            device_id,
                            completed,
                            outcomes@,
                            time_ms,
                            k as int,
                        ).0,
                        pass.1 == actions@ + spec_render_pass(
                            self@.devices[di as int].surfaces,
                            pre.outputs,
                            device_id,
                            completed,
                            outcomes@,
                            time_ms,
                            k as int,
                        ).1,
                    decreases n - k,
                {
                    let ghost cur = self@.devices[di as int].surfaces;
                    let ghost mid = self@;
                    let c: u32 = {
                        let dref: &Device = &self.devices[di];
                        proof {
                            assert(dref@ == self@.devices[di as int]);
                        }
                        dref.surfaces[k].crtc
                    };
                    proof {
                        assert(is_surface_at(mid, device_id, c, di as int, k as int));
                    }
                    let result = self.render_surface(device_id, c, completed, outcomes[k]);
                    let ghost step = spec_render_surface(
                        cur[k as int],
                        output_mapped(pre.outputs, device_id, c),
                        completed,
                        outcomes@[k as int],
                    );
                    proof {
                        assert(self@.devices == mid.devices.update(
                            di as int,
                            (DeviceView {
                                surfaces: cur.update(k as int, step.0),
                                ..mid.devices[di as int]
                            }),
                        ));
                        assert(result == step.1);
                        assert(self@.devices[di as int].surfaces == cur.update(k as int, step.0));
                        assert(self@.devices =~= pre.devices.update(
                            di as int,
                            (DeviceView {
                                surfaces: self@.devices[di as int].surfaces,
                                ..pre.devices[di as int]
                            }),
                        ));
                        assert(step.0.crtc == cur[k as int].crtc);
                    }
                    match result {
                        Ok(_) => {
                            actions.push(RenderAction::SendFrames { time_ms });
                        },
                        Err(e) => {
                            match e {
                                RenderError::ContextLost => {
                                    actions.push(RenderAction::Fatal { device_id, crtc: c });
                                    proof {
                                        assert(spec_render_pass(
                                            cur,
                                            pre.outputs,
                                            device_id,
                                            completed,
                                            outcomes@,
                                            time_ms,
                                            k as int,
                                        ).0 == cur.update(k as int, step.0));
                                        assert(spec_render_pass(
                                            cur,
                                            pre.outputs,
                                            device_id,
                                            completed,
                                            outcomes@,
                                            time_ms,
                                            k as int,
                                        ).1 == actions_for(step.1, device_id, c, time_ms));
                                        assert(pass.1 =~= actions@);
                                        assert(self@.devices[di as int].surfaces == pass.0);
                                        assert(self@.devices == pre.devices.update(
                                            di as int,
                                            (DeviceView {
                                                surfaces: pass.0,
                                                ..pre.devices[di as int]
                                            }),
                                        ));
                                        assert forall|dj: int|
                                            0 <= dj < pre.devices.len() && (
                                            #[trigger] pre.devices[dj]).id == device_id implies dj
                                            == di as int by {
                                            if dj < di {
                                                assert(pre.devices[dj].id != pre.devices[
                                                    di as int
                                                ].id);
                                            } else if (di as int) < dj {
                                                assert(pre.devices[di as int].id != pre.devices[
                                                    dj
                                                ].id);
                                            }
                                        }
                                    }
                                    return actions;
                                },
                                _ => {
                                    if reschedule_on(&e) {
                                        actions.push(
                                            RenderAction::ScheduleRetry {
                                                device_id,
                                                crtc: c,
                                                delay_ms: RETRY_INTERVAL_MS,
                                            },
                                        );
                                    }
                                },
                            }
                        },
                    }
                    proof {
                        let rest = spec_render_pass(
                            cur.update(k as int, step.0),
                            pre.outputs,
                            device_id,
                            completed,
                            outcomes@,
                            time_ms,
                            k as int + 1,
                        );
                        assert(spec_render_pass(
                            cur,
                            pre.outputs,
                            device_id,
                            completed,
                            outcomes@,
                            time_ms,
                            k as int,
                        ).0 == rest.0);
                        assert(spec_render_pass(
                            cur,
                            pre.outputs,
                            device_id,
                            completed,
                            outcomes@,
                            time_ms,
                            k as int,
                        ).1 == actions_for(step.1, device_id, c, time_ms) + rest.1);
                        assert(pass.1 =~= actions@ + rest.1);
                    }
                    k = k + 1;
                }
                proof {
                    assert(spec_render_pass(
                        self@.devices[di as int].surfaces,
                        pre.outputs,
                        device_id,
                        completed,
                        outcomes@,
                        time_ms,
                        n as int,
                    ).1 == Seq::<RenderAction>::empty());
                    assert(pass.1 =~= actions@);
                    assert(self@.devices[di as int].surfaces == pass.0);
                    assert(self@.devices == pre.devices.update(
                        di as int,
                        (DeviceView { surfaces: pass.0, ..pre.devices[di as int] }),
                    ));
                    assert forall|dj: int|
                        0 <= dj < pre.devices.len() && (#[trigger] pre.devices[dj]).id
                            == device_id implies dj == di as int by {
                        if dj < di {
                            assert(pre.devices[dj].id != pre.devices[di as int].id);
                        } else if (di as int) < dj {
                            assert(pre.devices[di as int].id != pre.devices[dj].id);
                        }
                    }
                }
                actions
            },
        }
    }

    /// The one-time blanking render performed right after a surface is
    /// created, before normal frames are scheduled.  On success the
    /// queued buffer is in flight.  A transient failure re-queues the
    /// attempt as a deferred idle task; a lost context terminates the
    /// process; `AlreadySwapped` is ignored.  A surface that was torn
    /// down before a deferred attempt fired is a no-op.
    pub fn initial_render(
        &mut self,
        device_id: u64,
        crtc: u32,
        outcome: Result<(), RenderError>,
    ) -> (act: InitialRenderAction)
        requires
            old(self).wf(),
        ensures
            final(self).wf(),
            final(self)@.outputs == old(self)@.outputs,
            final(self)@.primary == old(self)@.primary,
            !has_surface(old(self)@, device_id, crtc) ==> *final(self) == *old(self) && act
                == InitialRenderAction::Done,
            forall|di: int, si: int|
                is_surface_at(old(self)@, device_id, crtc, di, si) ==> (match outcome {
                    Ok(_) => final(self)@.devices == old(self)@.devices.update(
                        di,
                        (DeviceView {
                            surfaces: old(self)@.devices[di].surfaces.update(
                                si,
                                (Surface { pending: true, ..old(self)@.devices[di].surfaces[si] }),
                            ),
                            ..old(self)@.devices[di]
                        }),
                    ) && act == InitialRenderAction::Done,
                    Err(e) => *final(self) == *old(self) && act == (if e is ContextLost {
                        InitialRenderAction::Fatal
                    } else if e is TemporaryFailure {
                        InitialRenderAction::Requeue
                    } else {
                        InitialRenderAction::Done
                    }),
                }),
    {
        let ghost pre = self@;
        let di: usize = match self.find_device(device_id) {
            None => {
                proof {
                    if has_surface(pre, device_id, crtc) {
                        let (dj, sj) = choose|dj: int, sj: int|
                            is_surface_at(pre, device_id, crtc, dj, sj);
                        assert(has_device(pre.devices, device_id));
                    }
                }
                return InitialRenderAction::Done;
            },
            Some(di) => di,
        };
        let si: usize = match self.find_surface_idx(di, crtc) {
            None => {
                proof {
                    if has_surface(pre, device_id, crtc) {
                        let (dj, sj) = choose|dj: int, sj: int|
                            is_surface_at(pre, device_id, crtc, dj, sj);
                        assert(dj == di) by {
                            if dj < di {
                                assert(pre.devices[dj].id != pre.devices[di as int].id);
                            } else if di < dj {
                                assert(pre.devices[di as int].id != pre.devices[dj].id);
                            }
                        }
                        assert(pre.devices[di as int].surfaces[sj].crtc == crtc);
                    }
                }
                return InitialRenderAction::Done;
            },
            Some(si) => si,
        };
        proof {
            assert(is_surface_at(pre, device_id, crtc, di as int, si as int));
            assert forall|dj: int, sj: int|
                is_surface_at(pre, device_id, crtc, dj, sj) implies dj == di && sj == si by {
                if dj < di {
                    assert(pre.devices[dj].id != pre.devices[di as int].id);
                } else if di < dj {
                    assert(pre.devices[di as int].id != pre.devices[dj].id);
                }
                if sj < si {
                    assert(pre.devices[di as int].surfaces[sj].crtc != pre.devices[
                        di as int
                    ].surfaces[si as int].crtc);
                } else if si < sj {
                    assert(pre.devices[di as int].surfaces[si as int].crtc != pre.devices[
                        di as int
                    ].surfaces[sj].crtc);
                }
            }
        }
        match outcome {
            Ok(_) => {
                let old_s: Surface = {
                    let dref: &Device = &self.devices[di];
                    proof {
                        assert(dref@ == pre.devices[di as int]);
                    }
                    dref.surfaces[si]
                };
                let new_s = Surface { pending: true, ..old_s };
                let d: &mut Device = &mut self.devices[di];
                d.surfaces.set(si, new_s);
                proof {
                    assert(self@.devices =~= pre.devices.update(
                        di as int,
                        (DeviceView {
                            surfaces: pre.devices[di as int].surfaces.update(si as int, new_s),
                            ..pre.devices[di as int]
                        }),
                    ));
                    self.lemma_after_surface_update(pre, di as int, si as int, new_s);
                }
                InitialRenderAction::Done
            },
            Err(e) => {
                match e {
                    RenderError::ContextLost => InitialRenderAction::Fatal,
                    RenderError::TemporaryFailure(_) => InitialRenderAction::Requeue,
                    RenderError::AlreadySwapped => InitialRenderAction::Done,
                }
            },
        }
    }

    /// The session-signal bridge: on an activation-class signal every
    /// device schedules a full re-render of itself on the event loop's
    /// next idle slot (never synchronously, to avoid re-entering the
    /// signal dispatch).  Other signals are ignored.
    pub fn session_event(&self, signal: SessionSignal) -> (acts: Vec<SessionAction>)
        ensures
            (signal is ActivateSession || signal is ActivateDevice) ==> acts@
                == self@.devices.map_values(
                |d: DeviceView| SessionAction::ScheduleIdleRender { device_id: d.id },
            ),
            signal is Other ==> acts@ == Seq::<SessionAction>::empty(),
    {
        let mut acts: Vec<SessionAction> = Vec::new();
        match signal {
            SessionSignal::Other => {
                proof {
                    assert(acts@ =~= Seq::<SessionAction>::empty());
                }
                acts
            },
            _ => {
                let mut i: usize = 0;
                while i < self.devices.len()
                    invariant
                        i <= self@.devices.len(),
                        acts@ == self@.devices.take(i as int).map_values(
                            |d: DeviceView| SessionAction::ScheduleIdleRender { device_id: d.id },
                        ),
                    decreases self@.devices.len() - i,
                {
                    let id: u64 = {
                        let dref: &Device = &self.devices[i];
                        proof {
                            assert(dref@ == self@.devices[i as int]);
                        }
                        dref.id
                    };
                    acts.push(SessionAction::ScheduleIdleRender { device_id: id });
                    proof {
                        assert(acts@ =~= self@.devices.take(i as int + 1).map_values(
                            |d: DeviceView| SessionAction::ScheduleIdleRender { device_id: d.id },
                        ));
                    }
                    i = i + 1;
                }
                proof {
                    assert(self@.devices.take(self@.devices.len() as int) =~= self@.devices);
                }
                acts
            },
        }
    }

    /// Whether a device with this id is open.
    pub fn contains_device(&self, device_id: u64) -> (r: bool)
        ensures
            r == has_device(self@.devices, device_id),
    {
        match self.find_device(device_id) {
            Some(_) => true,
            None => false,
        }
    }

    /// The number of surfaces a device owns, or nothing for an unknown
    /// device.
    pub fn surface_count(&self, device_id: u64) -> (r: Option<usize>)
        ensures
            match r {
                Some(n) => exists|di: int|
                    0 <= di < self@.devices.len() && (#[trigger] self@.devices[di]).id == device_id
                        && n == self@.devices[di].surfaces.len(),
                None => !has_device(self@.devices, device_id),
            },
    {
        match self.find_device(device_id) {
            Some(di) => {
                let d: &Device = &self.devices[di];
                proof {
                    assert(d@ == self@.devices[di as int]);
                }
                Some(d.surfaces.len())
            },
            None => None,
        }
    }

    /// The swapchain state of the surface driving (`device_id`, `crtc`),
    /// or nothing when no such surface exists.
    pub fn surface_state(&self, device_id: u64, crtc: u32) -> (r: Option<Surface>)
        requires
            self.wf(),
        ensures
            match r {
                Some(s) => exists|di: int, si: int|
                    is_surface_at(self@, device_id, crtc, di, si) && s == self@.devices[
                        di
                    ].surfaces[si],
                None => !has_surface(self@, device_id, crtc),
            },
    {
        let ghost pre = self@;
        match self.find_device(device_id) {
            None => {
                proof {
                    if has_surface(pre, device_id, crtc) {
                        let (dj, sj) = choose|dj: int, sj: int|
                            is_surface_at(pre, device_id, crtc, dj, sj);
                        assert(has_device(pre.devices, device_id));
                    }
                }
                None
            },
            Some(di) => {
                match self.find_surface_idx(di, crtc) {
                    None => {
                        proof {
                            if has_surface(pre, device_id, crtc) {
                                let (dj, sj) = choose|dj: int, sj: int|
                                    is_surface_at(pre, device_id, crtc, dj, sj);
                                assert(dj == di) by {
                                    if dj < di {
                                        assert(pre.devices[dj].id != pre.devices[di as int].id);
                                    } else if di < dj {
                                        assert(pre.devices[di as int].id != pre.devices[dj].id);
                                    }
                                }
                                assert(pre.devices[di as int].surfaces[sj].crtc == crtc);
                            }
                        }
                        None
                    },
                    Some(si) => {
                        let d: &Device = &self.devices[di];
                        proof {
                            assert(d@ == pre.devices[di as int]);
                            assert(is_surface_at(pre, device_id, crtc, di as int, si as int));
                        }
                        Some(d.surfaces[si])
                    },
                }
            },
        }
    }

    /// The union of the buffer formats supported by every open device's
    /// render context: the system's importable format set.
    pub fn dmabuf_formats(&self) -> (r: Vec<u64>)
        ensures
            r@ == all_formats(self@.devices, 0),
    {
        let mut r: Vec<u64> = Vec::new();
        let mut k: usize = 0;
        proof {
            assert(r@ =~= Seq::<u64>::empty());
        }
        while k < self.devices.len()
            invariant
                k <= self@.devices.len(),
                all_formats(self@.devices, 0) == r@ + all_formats(self@.devices, k as int),
            decreases self@.devices.len() - k,
        {
            let ghost before = r@;
            let d: &Device = &self.devices[k];
            proof {
                assert(d@ == self@.devices[k as int]);
            }
            let mut t: usize = 0;
            while t < d.formats.len()
                invariant
                    t <= d@.formats.len(),
                    r@ == before + d@.formats.take(t as int),
                decreases d@.formats.len() - t,
            {
                r.push(d.formats[t]);
                proof {
                    assert(r@ =~= before + d@.formats.take(t as int + 1));
                }
                t = t + 1;
            }
            proof {
                assert(d@.formats.take(d@.formats.len() as int) =~= d@.formats);
                assert(all_formats(self@.devices, k as int) == self@.devices[k as int].formats
                    + all_formats(self@.devices, k as int + 1));
                assert(all_formats(self@.devices, 0) =~= r@ + all_formats(
                    self@.devices,
                    k as int + 1,
                ));
            }
            k = k + 1;
        }
        proof {
            assert(all_formats(self@.devices, self@.devices.len() as int) == Seq::<u64>::empty());
            assert(r@ =~= all_formats(self@.devices, 0));
        }
        r
    }

    /// Picks the device that imports an inbound buffer: each device's
    /// render context is tried in turn and the first success wins.
    /// `accepted` reports, per device in order, whether its import call
    /// succeeded.
    pub fn import_dmabuf(&self, accepted: &Vec<bool>) -> (r: Option<u64>)
        requires
            accepted@.len() == self@.devices.len(),
        ensures
            match r {
                Some(id) => exists|k: int|
                    0 <= k < self@.devices.len() && accepted@[k] && id == (
                    #[trigger] self@.devices[k]).id && (forall|j: int|
                        0 <= j < k ==> !accepted@[j]),
                None => forall|k: int| 0 <= k < accepted@.len() ==> !accepted@[k],
            },
    {
        let mut k: usize = 0;
        while k < self.devices.len()
            invariant
                accepted@.len() == self@.devices.len(),
                k <= self@.devices.len(),
                forall|j: int| 0 <= j < k ==> !accepted@[j],
            decreases self@.devices.len() - k,
        {
            if accepted[k] {
                let d: &Device = &self.devices[k];
                proof {
                    assert(d@ == self@.devices[k as int]);
                }
                return Some(d.id);
            }
            k = k + 1;
        }
        None
    }

    /// Re-establishes the state invariant after one surface's swapchain
    /// state changed; the surface keeps its CRTC.
    proof fn lemma_after_surface_update(&self, pre: StateView, di: int, si: int, new_s: Surface)
        requires
            state_wf(pre),
            0 <= di < pre.devices.len(),
            0 <= si < pre.devices[di].surfaces.len(),
            new_s.crtc == pre.devices[di].surfaces[si].crtc,
            self@.devices == pre.devices.update(
                di,
                (DeviceView {
                    surfaces: pre.devices[di].surfaces.update(si, new_s),
                    ..pre.devices[di]
                }),
            ),
            self@.outputs == pre.outputs,
            self@.primary == pre.primary,
        ensures
            state_wf(self@),
    {
        let v = self@;
        assert(forall|k: int|
            0 <= k < v.devices.len() ==> (#[trigger] v.devices[k]).id == pre.devices[k].id);
        assert forall|d: int| 0 <= d < v.devices.len() implies tagged_crtcs(
            v.outputs,
            (#[trigger] v.devices[d]).id,
        ) == surface_crtcs(v.devices[d].surfaces) by {
            if d == di {
                assert(surface_crtcs(v.devices[d].surfaces) =~= surface_crtcs(
                    pre.devices[d].surfaces,
                ));
            } else {
                assert(v.devices[d] == pre.devices[d]);
            }
        }
        assert forall|d: int, s1: int, s2: int|
            0 <= d < v.devices.len() && 0 <= s1 < s2 < v.devices[d].surfaces.len() implies (
        #[trigger] v.devices[d].surfaces[s1]).crtc != (#[trigger] v.devices[d].surfaces[s2]).crtc
            by {
            if d == di {
                assert(v.devices[d].surfaces[s1].crtc == pre.devices[d].surfaces[s1].crtc);
                assert(v.devices[d].surfaces[s2].crtc == pre.devices[d].surfaces[s2].crtc);
            } else {
                assert(v.devices[d] == pre.devices[d]);
            }
        }
        assert forall|i: int|
            0 <= i < v.outputs.len() && (#[trigger] v.outputs[i]).tag is Some implies has_device(
            v.devices,
            v.outputs[i].tag->Some_0.device_id,
        ) by {
            if v.outputs[i].tag is Some {
                let tid = v.outputs[i].tag->Some_0.device_id;
                assert(has_device(pre.devices, tid));
                let kk = choose|kk: int|
                    0 <= kk < pre.devices.len() && (#[trigger] pre.devices[kk]).id == tid;
                assert(v.devices[kk].id == tid);
            }
        }
        if v.primary is Some {
            let p = v.primary->Some_0;
            assert(has_device(pre.devices, p));
            let kk = choose|kk: int|
                0 <= kk < pre.devices.len() && (#[trigger] pre.devices[kk]).id == p;
            assert(v.devices[kk].id == p);
        }
    }

    /// Re-establishes the state invariant after a device removal.
    proof fn lemma_after_removal(&self, pre: StateView, device_id: u64, di: int)
        requires
            state_wf(pre),
            0 <= di < pre.devices.len(),
            pre.devices[di].id == device_id,
            self@.devices == pre.devices.remove(di),
            self@.outputs == arranged(drop_device(pre.outputs, device_id)),
            self@.primary == if pre.primary == Some(device_id) {
                Option::<u64>::None
            } else {
                pre.primary
            },
        ensures
            state_wf(self@),
            !has_device(self@.devices, device_id),
            forall|i: int|
                0 <= i < self@.outputs.len() ==> !(#[trigger] self@.outputs[i]).tagged_with(
                    device_id,
                ),
    {
        let v = self@;
        let dropped = drop_device(pre.outputs, device_id);
        lemma_drop_device(pre.outputs, device_id);
        lemma_arranged_pointwise(dropped);
        lemma_total_width_same_sizes(dropped, arranged(dropped));
        assert(outputs_wf(v.outputs));
        assert(outputs_ok(v.outputs));
        // The removed sequence: every remaining device is one of the old
        // ones, with its id unchanged.
        assert(forall|k: int|
            0 <= k < v.devices.len() ==> #[trigger] v.devices[k] == if k < di {
                pre.devices[k]
            } else {
                pre.devices[k + 1]
            });
        assert forall|k: int| 0 <= k < v.devices.len() implies !((#[trigger] v.devices[k]).id
            == device_id) by {
            if k < di {
                assert(pre.devices[k].id != pre.devices[di].id);
            } else {
                assert(pre.devices[di].id != pre.devices[k + 1].id);
            }
        }
        assert(!has_device(v.devices, device_id));
        if v.primary is Some {
            let p = v.primary->Some_0;
            assert(has_device(pre.devices, p));
            let k = choose|k: int| 0 <= k < pre.devices.len() && (#[trigger] pre.devices[k]).id
                == p;
            assert(p != device_id);
            assert(k != di);
            if k < di {
                assert(v.devices[k].id == p);
            } else {
                assert(v.devices[k - 1].id == p);
            }
        }
        // Tags of other devices survive both the drop and the arrangement.
        lemma_tagged_crtcs_same_tags(dropped, arranged(dropped), device_id);
        assert forall|d: int| 0 <= d < v.devices.len() implies tagged_crtcs(
            v.outputs,
            (#[trigger] v.devices[d]).id,
        ) == surface_crtcs(v.devices[d].surfaces) by {
            let id = v.devices[d].id;
            lemma_tagged_crtcs_same_tags(dropped, arranged(dropped), id);
            assert(tagged_crtcs(dropped, id) == tagged_crtcs(pre.outputs, id));
        }
        assert forall|i: int| 0 <= i < v.outputs.len() implies !(#[trigger] v.outputs[i])
            .tagged_with(device_id) by {
            assert(v.outputs[i].tag == dropped[i].tag);
        }
        assert forall|i: int|
            0 <= i < v.outputs.len() && (#[trigger] v.outputs[i]).tag is Some implies has_device(
            v.devices,
            v.outputs[i].tag->Some_0.device_id,
        ) by {
            if v.outputs[i].tag is Some {
                assert(v.outputs[i].tag == dropped[i].tag);
                let tid = v.outputs[i].tag->Some_0.device_id;
                assert(pre.outputs.contains(dropped[i]));
                let j = choose|j: int|
                    0 <= j < pre.outputs.len() && pre.outputs[j] == dropped[i];
                assert(pre.outputs[j].tag is Some);
                assert(has_device(pre.devices, tid));
                let k = choose|k: int| 0 <= k < pre.devices.len() && (#[trigger] pre.devices[k]).id
                    == tid;
                assert(tid != device_id);
                assert(k != di);
                if k < di {
                    assert(v.devices[k].id == tid);
                } else {
                    assert(v.devices[k - 1].id == tid);
                }
            }
        }
    }
}

} // verus!
