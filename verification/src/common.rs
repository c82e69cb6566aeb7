//! Shared configuration constants.

use vstd::prelude::*;
use crate::x86arch;

verus! {

pub const CLOCK_FREQUENCY: i32 = 1000;
pub const TIMER_FREQUENCY: i32 = 1193182;

/// Flags value a new process starts with: the must-be-one bit plus the
/// interrupt-enable bit.
pub const DEFAULT_EFLAGS: u64 = x86arch::EFLAGS_MB1 | x86arch::EFLAGS_IF;

} // verus!
