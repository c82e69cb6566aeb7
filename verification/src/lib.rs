//! Core of a minimal preemptive-multitasking kernel for a single-core
//! x86-64 machine: process control blocks, a round-robin scheduler with a
//! bounded ready queue, fixed-size execution stacks with register contexts
//! stored inside them, a timer-driven preemption path, and the
//! exit/fork/exec/time/pid/ppid/wait system calls.
//!
//! Machine memory that the real hardware would own (process stacks and
//! the register contexts saved inside them, the text-mode screen, the
//! interrupt descriptor table) is modelled by owned buffers, addressed
//! through explicit base addresses and word offsets, so that every access
//! is bounds-checked and every aliasing relation is explicit.

pub mod c_io;
pub mod clock;
pub mod common;
pub mod counting;
pub mod interrupt;
pub mod kernel;
pub mod pcbs;
pub mod scheduler;
pub mod stacks;
pub mod syscalls;
pub mod x86arch;
