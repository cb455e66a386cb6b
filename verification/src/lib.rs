//! Teleoperation core.
#![allow(unused_imports)]
use vstd::prelude::*;

pub mod analytics;
pub mod bytes;
pub mod cli;
pub mod cloud;
pub mod hal;
pub mod num;
pub mod runtime;
pub mod text;

verus! {

/// Version of the crate.
pub const VERSION: &'static str = "1.0.0";

} // verus!
