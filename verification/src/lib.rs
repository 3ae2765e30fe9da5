//! A verified core for a closed-loop fan-speed controller.
//!
//! The library holds the logic worth proving: the piecewise-linear fan
//! curve and its interpolation, the textual curve-spec parser, the
//! bounded-retry state machine that keeps device-file I/O resilient, and
//! the per-tick control decision. File and environment I/O live outside,
//! in a thin driver that hands this library plain values.

pub mod control;
pub mod fan_curve;
pub mod retry;
pub mod text;
