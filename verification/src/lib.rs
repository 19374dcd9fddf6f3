//! Core of a temporary hosts-file site blocker.
//!
//! The library owns the logic that must be exact: the block-region codec
//! (rendering, detecting and stripping the marker-delimited region in the
//! hosts file), the session-marker bookkeeping, and the lifecycle decisions
//! (insertion, tamper repair, coordinated teardown). All file, process and
//! signal handling lives outside, and hands the library plain values.

pub mod audio;
pub mod codec;
pub mod config;
pub mod lifecycle;
pub mod session;
