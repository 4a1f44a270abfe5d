//! Verified core of a Wayland compositor's hardware display backend.
//!
//! The library models the subsystem that discovers GPU devices, negotiates a
//! working display pipeline (connector -> encoder -> CRTC -> mode) for every
//! monitor, drives a vsync-paced render loop and recovers from hotplug and
//! session failures.  All hardware effects (DRM ioctls, GL rendering, event
//! loop timers) happen outside the library: callers feed the observed
//! outcomes in as plain values and receive the actions to perform, so every
//! decision the backend takes is a verified function from state and event to
//! new state and actions.

pub mod cursor;
pub mod geometry;
pub mod numfmt;
pub mod output;
pub mod output_map;
pub mod resolver;
pub mod serializer;
pub mod state;
