//! Smooth wheel motion.
//!
//! Wheel ticks become finite pulses of motion, evaluated from absolute time.
//! When a pulse starts, ends and merges, how it spends its amplitude, what a
//! fast wheel gains, which direction a wheel is held to be turning in, and
//! which phase an output frame carries is decided here. What a distance is and
//! how distances are added, multiplied and compared is left to
//! [`math::ScrollMath`].
//!
//! All times are nanoseconds on one monotonic clock.

pub mod curve;
pub mod math;
pub mod reversal;
pub mod cooling;
pub mod window;
pub mod motion;
pub mod glide;
pub mod amplitude;
pub mod conservation;
pub mod account;
pub mod timeline;
pub mod direction;
pub mod course;
pub mod output;
pub mod engine;
