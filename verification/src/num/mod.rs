//! Exact arithmetic: natural numbers of any size, and the binary floating-point
//! formats as integers.
pub mod binary;
pub mod convert;
pub mod debug_laws;
pub mod decimal;
pub mod decimal_laws;
pub mod integer_laws;
pub mod natural;
