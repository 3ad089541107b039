//! Deterministic, float-free numeric primitives: an arbitrary-precision
//! non-negative decimal integer and a 128-bit Q64.64 fixed-point number,
//! together with checked-arithmetic helpers over scaled 128-bit integers.

pub mod digits;
pub mod linked_math;
pub mod math;
pub mod u64f64;
pub mod u_infinite;
pub mod utils;
