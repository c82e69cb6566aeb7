//! Architecture constants: flag bits, interrupt vectors and controller
//! command values of the x86-64 platform the kernel targets.

use vstd::prelude::*;

verus! {

pub const EFLAGS_MB1: u64 = 0x00000002;
pub const EFLAGS_IF: u64 = 0x00000200;

pub const INT_VEC_TIMER: usize = 0x20;
pub const INT_VEC_KEYBOARD: usize = 0x21;
pub const INT_VEC_MYSTERY: usize = 0x27;

pub const PIC_EOI: i32 = 0x20;
pub const PIC_MASTER_CMD_PORT: i32 = 0x20;
pub const PIC_SLAVE_CMD_PORT: i32 = 0xA0;

/// Code-segment selector installed in a fresh context.
pub const GDT64_CODE: u64 = 0x8;
/// Data-segment selector installed in a fresh context.
pub const GDT64_DATA: u64 = 0x10;

} // verus!
