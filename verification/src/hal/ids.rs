//! Well-known CAN ids used by the built-in mock device fleet.
use vstd::prelude::*;

verus! {

/// Motor command broadcast (payload: 4 x u16 thrust, big-endian).
pub const MOTOR_CMD: u32 = 0x200;

/// Motor telemetry stream base id (+ motor index).
pub const MOTOR_TELEM: u32 = 0x300;

/// IMU data stream.
pub const IMU_DATA: u32 = 0x400;

} // verus!
