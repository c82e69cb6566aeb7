//! Process control blocks: per-process identity and scheduling state, the
//! register-context layout, and the process-id allocator.

use vstd::prelude::*;

verus! {

// Process states. Only Unused, Ready, Running, Waiting and Zombie are
// driven by this core; the rest are reserved extension points.
pub const ST_UNUSED: u8 = 0;
pub const ST_NEW: u8 = 1;
pub const ST_RUNNING: u8 = 2;
pub const ST_SLEEPING: u8 = 3;
pub const ST_WAITING: u8 = 4;
pub const ST_BLOCKED_IO: u8 = 5;
pub const ST_KILLED: u8 = 6;
pub const ST_ZOMBIE: u8 = 7;
pub const ST_READY: u8 = 8;

/// Process id of the init process, which owns slot 0 of the table.
pub const PID_INIT: u16 = 1;
/// First id handed out by the allocator; ids below it are reserved.
pub const PID_FIRST: u16 = 100;

/// Monotonic process-id allocator.
pub struct Pids {
    pub curr: u16,
}

impl Pids {
    /// A fresh allocator, positioned at the first non-reserved id.
    pub fn new() -> (r: Pids)
        ensures
            r.curr == PID_FIRST,
    {
        Pids { curr: PID_FIRST }
    }

    /// Returns the next pid.
    pub fn get_next_pid(&mut self) -> (ret: u16)
        requires
            old(self).curr < u16::MAX,
        ensures
            ret == old(self).curr,
            final(self).curr == old(self).curr + 1,
    {
        let ret = self.curr;
        self.curr = self.curr + 1;
        ret
    }
}

/// Register-context snapshot, in the order the save/restore trampoline
/// pushes the registers. A live context is stored inside its owning
/// stack as `CXT_WORDS` consecutive machine words; this struct is the
/// decoded copy of such a region.
#[derive(Clone, Copy, Debug, PartialEq, Eq, Structural)]
pub struct Context {
    pub r15: u64,
    pub r14: u64,
    pub r13: u64,
    pub r12: u64,
    pub r11: u64,
    pub r10: u64,
    pub r9: u64,
    pub r8: u64,
    pub rdx: u64,
    pub rcx: u64,
    pub rbx: u64,
    pub rax: u64,
    pub rdi: u64,
    pub rsi: u64,
    pub rbp: u64,
    pub vector: u64,
    pub code: u64,
    pub rip: u64,
    pub cs: u64,
    pub rflags: u64,
    pub rsp: u64,
    pub ss: u64,
}

/// Number of machine words a saved context occupies.
pub const CXT_WORDS: u64 = 22;

// Word offset of each register field within a saved context.
pub const CXT_R15: u64 = 0;
pub const CXT_R14: u64 = 1;
pub const CXT_R13: u64 = 2;
pub const CXT_R12: u64 = 3;
pub const CXT_R11: u64 = 4;
pub const CXT_R10: u64 = 5;
pub const CXT_R9: u64 = 6;
pub const CXT_R8: u64 = 7;
pub const CXT_RDX: u64 = 8;
pub const CXT_RCX: u64 = 9;
pub const CXT_RBX: u64 = 10;
/// Offset of the return-value register.
pub const CXT_RAX: u64 = 11;
/// Offset of the argument register.
pub const CXT_RDI: u64 = 12;
pub const CXT_RSI: u64 = 13;
pub const CXT_RBP: u64 = 14;
pub const CXT_VECTOR: u64 = 15;
pub const CXT_CODE: u64 = 16;
pub const CXT_RIP: u64 = 17;
pub const CXT_CS: u64 = 18;
pub const CXT_RFLAGS: u64 = 19;
pub const CXT_RSP: u64 = 20;
pub const CXT_SS: u64 = 21;

/// Process control block: identity and scheduling state of one process.
/// `cxt` and `stack` are addresses into the stack arena: `stack` is the
/// base of the stack the process owns, `cxt` the location of its saved
/// register context inside that stack.
#[derive(Clone, Copy, Debug, PartialEq, Eq, Structural)]
pub struct Pcb {
    /// Address of the saved register context.
    pub cxt: u64,
    /// Base address of the owned stack.
    pub stack: u64,

    /// Event tag for things like sleep.
    pub event: u32,
    /// How did we exit?
    pub exitstatus: u32,

    /// Process id.
    pub pid: u16,
    /// Parent process id.
    pub ppid: u16,
    /// Number of live children, pending zombies included.
    pub children: u16,

    /// Process state, one of the `ST_` values.
    pub state: u8,
    /// Remaining quantum, in timer ticks.
    pub ticks: u8,
    /// Own index in the process table.
    pub spot: i8,
}

impl Pcb {
    /// An unused table entry.
    pub fn empty() -> (r: Pcb)
        ensures
            r == Pcb::spec_empty(),
    {
        Pcb {
            cxt: 0,
            stack: 0,
            event: 0,
            exitstatus: 0,
            pid: 0,
            ppid: 0,
            children: 0,
            state: ST_UNUSED,
            ticks: 0,
            spot: 0,
        }
    }

    /// The value an unused table entry holds.
    pub open spec fn spec_empty() -> Pcb {
        Pcb {
            cxt: 0,
            stack: 0,
            event: 0,
            exitstatus: 0,
            pid: 0,
            ppid: 0,
            children: 0,
            state: ST_UNUSED,
            ticks: 0,
            spot: 0,
        }
    }
}

} // verus!
