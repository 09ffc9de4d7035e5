//! Per-process and system figures of a macOS machine.

use vstd::prelude::*;

pub mod entitlements;
pub mod frame_rate;
pub mod iokit;
pub mod kernel;
pub mod lines;
pub mod nettop;
pub mod power;
pub mod source;
pub mod text;

verus! {

/// A process identifier.
pub type Pid = u32;

} // verus!
