//! Hardware abstraction: buses, registers, cameras and vehicle protocols.
pub mod camera;
pub mod can;
pub mod drone;
pub mod ids;
pub mod mavlink;
pub mod mavlink_laws;
pub mod mmio;
pub mod sensor;
pub mod types;
