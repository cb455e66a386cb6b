//! Sensor interfaces: typed reads into wire structs.
use vstd::prelude::*;
use crate::runtime::wire::{GpsSample, ImuSample, TelemetryPacket};

verus! {

/// Inertial measurement unit source.
pub trait ImuSource {
    /// Fills `out` with the freshest sample; `false` when no new sample since
    /// the previous call (callers keep their previous values).
    fn read(&mut self, out: &mut ImuSample) -> bool;
}

/// GNSS receiver source.
pub trait GpsSource {
    /// See [`ImuSource::read`].
    fn read(&mut self, out: &mut GpsSample) -> bool;
}

/// Generic multi-value telemetry source (battery, temperatures, ...).
pub trait TelemetrySource {
    /// See [`ImuSource::read`].
    fn read(&mut self, out: &mut TelemetryPacket) -> bool;
}

} // verus!
