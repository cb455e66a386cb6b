//! Flight data recorder framing and training-data export.
pub mod direct_io;
pub mod export;
pub mod export_laws;
pub mod npy;
pub mod record;
