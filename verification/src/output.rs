//! A logical monitor: name, physical size, current mode, scale, location in
//! the shared logical coordinate space, and the backward tag naming the
//! (device, CRTC) pair that realizes it.

use vstd::prelude::*;
use crate::geometry::{Mode, Point, Rectangle, Size};

verus! {

/// The backward link from an output to the device CRTC that drives it.  It
/// is used only for identity comparison, never as ownership.
#[derive(Clone, Copy, Debug, PartialEq, Eq, Structural)]
pub struct OutputTag {
    pub device_id: u64,
    pub crtc: u32,
}

/// The exclusive zone reserved by the drawable-layer stack of an output, in
/// logical pixels per screen edge.
#[derive(Clone, Copy, Debug, PartialEq, Eq, Structural)]
pub struct ExclusiveZone {
    pub left: u32,
    pub top: u32,
    pub bottom: u32,
}

/// Mathematical image of an [`Output`].
pub struct OutputView {
    pub name: Seq<char>,
    pub physical_size: Size,
    pub current_mode: Mode,
    pub scale_milli: u32,
    pub location: Point,
    pub tag: Option<OutputTag>,
    pub active_workspace: Seq<char>,
    pub exclusive_zone: ExclusiveZone,
}

/// A logical monitor.
pub struct Output {
    name: String,
    physical_size: Size,
    current_mode: Mode,
    /// Scale factor in thousandths: 1000 stands for a scale of 1.0.
    scale_milli: u32,
    location: Point,
    tag: Option<OutputTag>,
    active_workspace: String,
    exclusive_zone: ExclusiveZone,
}

impl View for Output {
    type V = OutputView;

    closed spec fn view(&self) -> OutputView {
        OutputView {
            name: self.name@,
            physical_size: self.physical_size,
            current_mode: self.current_mode,
            scale_milli: self.scale_milli,
            location: self.location,
            tag: self.tag,
            active_workspace: self.active_workspace@,
            exclusive_zone: self.exclusive_zone,
        }
    }
}

/// Division rounded to the nearest integer, halves rounded up; meaningful
/// for `a >= 0` and `b > 0`.
pub open spec fn rounded_div(a: int, b: int) -> int {
    (2 * a + b) / (2 * b)
}

/// Rounded division of a nonnegative value stays between 0 and the
/// numerator.
pub proof fn lemma_rounded_div_bounds(a: int, b: int)
    requires
        0 <= a,
        1 <= b,
    ensures
        0 <= rounded_div(a, b) <= a,
{
    assert(0 <= (2 * a + b) / (2 * b) <= a) by (nonlinear_arith)
        requires
            0 <= a,
            1 <= b,
    ;
}

/// The logical size of a valid output is nonnegative and at most the
/// largest mode extent at scale 0.001.
pub proof fn lemma_size_bounds(v: OutputView)
    requires
        v.inv(),
    ensures
        0 <= v.spec_size().w <= 65_535_000,
        0 <= v.spec_size().h <= 65_535_000,
{
    lemma_rounded_div_bounds(v.current_mode.size.w * 1000, v.scale_milli as int);
    lemma_rounded_div_bounds(v.current_mode.size.h * 1000, v.scale_milli as int);
}

impl OutputView {
    /// Validity of an output: the mode fits the hardware limits (DRM modes
    /// carry 16-bit sizes), the scale is positive and the exclusive zone is
    /// bounded by the largest mode extent.
    pub open spec fn inv(self) -> bool {
        &&& 0 <= self.current_mode.size.w <= 0xffff
        &&& 0 <= self.current_mode.size.h <= 0xffff
        &&& 0 <= self.current_mode.refresh
        &&& 1 <= self.scale_milli
        &&& self.exclusive_zone.left <= 0xffff
        &&& self.exclusive_zone.top <= 0xffff
        &&& self.exclusive_zone.bottom <= 0xffff
    }

    /// The logical size of the output: the mode size divided by the scale,
    /// rounded to the nearest integer.
    pub open spec fn spec_size(self) -> Size {
        Size {
            w: rounded_div(self.current_mode.size.w * 1000, self.scale_milli as int) as i32,
            h: rounded_div(self.current_mode.size.h * 1000, self.scale_milli as int) as i32,
        }
    }

    /// The logical rectangle the output covers.
    pub open spec fn spec_geometry(self) -> Rectangle {
        Rectangle { loc: self.location, size: self.spec_size() }
    }

    /// Whether the output is tagged as realized by `device_id`.
    pub open spec fn tagged_with(self, device_id: u64) -> bool {
        self.tag is Some && self.tag->Some_0.device_id == device_id
    }
}

impl Output {
    /// Creates an output at scale 1.0.  The compositor-visible protocol
    /// object that mirrors these attributes lives outside the library.
    pub fn new(
        name: &str,
        location: Point,
        physical_size: Size,
        mode: Mode,
        active_workspace: String,
        tag: Option<OutputTag>,
    ) -> (r: Output)
        requires
            0 <= mode.size.w <= 0xffff,
            0 <= mode.size.h <= 0xffff,
            0 <= mode.refresh,
        ensures
            r@ == (OutputView {
                name: name@,
                physical_size: physical_size,
                current_mode: mode,
                scale_milli: 1000u32,
                location: location,
                tag: tag,
                active_workspace: active_workspace@,
                exclusive_zone: ExclusiveZone { left: 0, top: 0, bottom: 0 },
            }),
            r@.inv(),
    {
        Output {
            name: name.to_owned(),
            physical_size,
            current_mode: mode,
            scale_milli: 1000,
            location,
            tag,
            active_workspace,
            exclusive_zone: ExclusiveZone { left: 0, top: 0, bottom: 0 },
        }
    }

    /// The user-facing name, derived from the connector interface type and
    /// instance index.
    pub fn name(&self) -> (r: String)
        ensures
            r@ == self@.name,
    {
        self.name.clone()
    }

    /// The current location in the logical coordinate space.
    pub fn location(&self) -> (r: Point)
        ensures
            r == self@.location,
    {
        self.location
    }

    /// Moves the output; all other attributes are unchanged.
    pub fn set_location(&mut self, location: Point)
        ensures
            final(self)@ == (OutputView { location: location, ..old(self)@ }),
    {
        self.location = location;
    }

    /// The current display mode.
    pub fn current_mode(&self) -> (r: Mode)
        ensures
            r == self@.current_mode,
    {
        self.current_mode
    }

    /// The scale factor in thousandths (1000 stands for 1.0).
    pub fn scale_milli(&self) -> (r: u32)
        ensures
            r == self@.scale_milli,
    {
        self.scale_milli
    }

    /// The backward (device, CRTC) tag, if the output is driven by a device.
    pub fn tag(&self) -> (r: Option<OutputTag>)
        ensures
            r == self@.tag,
    {
        self.tag
    }

    /// The physical size in millimeters; zero when unknown.
    pub fn physical_size(&self) -> (r: Size)
        ensures
            r == self@.physical_size,
    {
        self.physical_size
    }

    /// The key of the workspace shown on this output.
    pub fn active_workspace(&self) -> (r: String)
        ensures
            r@ == self@.active_workspace,
    {
        self.active_workspace.clone()
    }

    /// Changes the active workspace key.
    pub fn set_active_workspace(&mut self, key: String)
        ensures
            final(self)@ == (OutputView { active_workspace: key@, ..old(self)@ }),
    {
        self.active_workspace = key;
    }

    /// The exclusive zone currently reserved by the layer stack.
    pub fn exclusive_zone(&self) -> (r: ExclusiveZone)
        ensures
            r == self@.exclusive_zone,
    {
        self.exclusive_zone
    }

    /// Records the exclusive zone computed by the layer-stack arrangement.
    pub fn set_exclusive_zone(&mut self, zone: ExclusiveZone)
        requires
            zone.left <= 0xffff,
            zone.top <= 0xffff,
            zone.bottom <= 0xffff,
        ensures
            final(self)@ == (OutputView { exclusive_zone: zone, ..old(self)@ }),
    {
        self.exclusive_zone = zone;
    }

    /// The logical size: the mode size divided by the scale, rounded to the
    /// nearest integer.
    pub fn size(&self) -> (r: Size)
        requires
            self@.inv(),
        ensures
            r == self@.spec_size(),
    {
        let s: u64 = self.scale_milli as u64;
        let w: u64 = (2 * (self.current_mode.size.w as u64) * 1000 + s) / (2 * s);
        let h: u64 = (2 * (self.current_mode.size.h as u64) * 1000 + s) / (2 * s);
        Size { w: w as i32, h: h as i32 }
    }

    /// The logical rectangle the output covers.
    pub fn geometry(&self) -> (r: Rectangle)
        requires
            self@.inv(),
        ensures
            r == self@.spec_geometry(),
    {
        Rectangle { loc: self.location(), size: self.size() }
    }

    /// The geometry with the layer stack's exclusive zone carved out.  The
    /// left margin is subtracted from the width twice, standing in for both
    /// horizontal margins under the current single-axis layout policy.
    pub fn usable_geometry(&self) -> (r: Rectangle)
        requires
            self@.inv(),
            self@.location.x + self@.exclusive_zone.left <= i32::MAX,
            self@.location.y + self@.exclusive_zone.top <= i32::MAX,
        ensures
            r.loc.x == self@.location.x + self@.exclusive_zone.left,
            r.loc.y == self@.location.y + self@.exclusive_zone.top,
            r.size.w == self@.spec_size().w - 2 * self@.exclusive_zone.left,
            r.size.h == self@.spec_size().h - self@.exclusive_zone.top
                - self@.exclusive_zone.bottom,
    {
        let geo = self.geometry();
        proof {
            lemma_size_bounds(self@);
        }
        let left: i32 = self.exclusive_zone.left as i32;
        let top: i32 = self.exclusive_zone.top as i32;
        let bottom: i32 = self.exclusive_zone.bottom as i32;
        Rectangle {
            loc: Point { x: geo.loc.x + left, y: geo.loc.y + top },
            size: Size { w: geo.size.w - left - left, h: geo.size.h - top - bottom },
        }
    }

    /// Replaces the current mode; the scale and every other attribute are
    /// kept.
    pub fn update_mode(&mut self, mode: Mode)
        requires
            0 <= mode.size.w <= 0xffff,
            0 <= mode.size.h <= 0xffff,
            0 <= mode.refresh,
        ensures
            final(self)@ == (OutputView { current_mode: mode, ..old(self)@ }),
    {
        self.current_mode = mode;
    }

    /// Changes the scale factor, given in thousandths.  The change is
    /// dropped when the rounded integer scale is unchanged, to avoid
    /// redundant protocol notifications.
    pub fn update_scale(&mut self, scale_milli: u32)
        requires
            1 <= scale_milli,
        ensures
            rounded_div(scale_milli as int, 1000) == rounded_div(
                old(self)@.scale_milli as int,
                1000,
            ) ==> *final(self) == *old(self),
            rounded_div(scale_milli as int, 1000) != rounded_div(
                old(self)@.scale_milli as int,
                1000,
            ) ==> final(self)@ == (OutputView { scale_milli: scale_milli, ..old(self)@ }),
    {
        let new_round: u64 = (2 * (scale_milli as u64) + 1000) / 2000;
        let old_round: u64 = (2 * (self.scale_milli as u64) + 1000) / 2000;
        if new_round != old_round {
            self.scale_milli = scale_milli;
        }
    }
}

} // verus!
