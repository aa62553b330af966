//! A real-time multi-tap delay line with runtime-configurable read heads,
//! selectable interpolation, and selectable output mixing.
//!
//! Signal values, gains and fractional sample offsets are carried in Q16.16
//! fixed point: an `i64` (or `u64` for offsets) whose low 16 bits are the
//! fractional part, so the integer `65536` stands for the real number `1.0`.
//! Every rescaling step rounds toward negative infinity (floor).

pub mod chaos;
pub mod delay;
pub mod math;
