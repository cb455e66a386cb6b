//! Modes, rings, buffers and wire structs that every part of the system uses.
pub mod affinity;
pub mod archive;
pub mod bus;
pub mod eventloop;
pub mod layout_laws;
pub mod mode;
pub mod mpmc;
pub mod pool;
pub mod ring;
pub mod wire;
