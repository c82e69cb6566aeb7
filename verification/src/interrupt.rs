//! The interrupt tables: the model of the interrupt descriptor table
//! the hardware walks, and the kernel's own handler table, kept as an
//! explicit sum type per vector instead of raw function pointers.
//! Programming the interrupt controller itself is port output and
//! stays outside the core.

use vstd::prelude::*;
use crate::x86arch;

verus! {

pub const ISR_TAB_USIZE: usize = 256;

/// What a handled interrupt asks of the hardware afterwards: nothing,
/// an end-of-interrupt to the master controller, or to both, or a halt
/// of the whole machine on a vector with no safe continuation.
#[derive(Clone, Copy, Debug, PartialEq, Eq, Structural)]
pub enum IsrOutcome {
    Halt,
    AckMaster,
    AckBoth,
}

/// The handler installed for one interrupt vector.
#[derive(Clone, Copy, Debug, PartialEq, Eq, Structural)]
pub enum IsrHandler {
    /// No handler was registered: fatal to the whole kernel.
    Unexpected,
    /// A hardware interrupt that only needs acknowledging.
    Expected,
    /// The spurious vector the controller raises now and then.
    Mystery,
    /// The timer tick.
    Clock,
    /// The software-interrupt vector for system calls.
    Syscall,
}

/// One 64-bit interrupt gate as the manual defines it.
#[derive(Clone, Copy, Debug, PartialEq, Eq, Structural)]
pub struct IdtGate {
    pub offset_15_0: u16,
    pub segment_selector: u16,
    pub flags: u16,
    pub offset_31_16: u16,
    pub offset_63_32: u32,
    pub zero: u32,
}

pub const IDT_PRESENT: u16 = 0x8000;
pub const IDT_DPL_0: u16 = 0x0000;
pub const IDT_INT32_GATE: u16 = 0x0e00;

/// Interrupt state: the descriptor table and the handler table.
pub struct Interrupt {
    pub idt: Vec<IdtGate>,
    pub isr_table: Vec<IsrHandler>,
}

impl Interrupt {
    pub open spec fn wf(self) -> bool {
        &&& self.idt@.len() == 256
        &&& self.isr_table@.len() == 256
    }

    /// Empty tables: zeroed gates, every vector unexpected.
    pub fn new() -> (r: Interrupt)
        ensures
            r.wf(),
            forall|v: int| 0 <= v < 256 ==> r.isr_table@[v] == IsrHandler::Unexpected,
    {
        let mut idt: Vec<IdtGate> = Vec::new();
        let mut isr_table: Vec<IsrHandler> = Vec::new();
        let mut i: usize = 0;
        while i < 256
            invariant
                i <= 256,
                idt@.len() == i,
                isr_table@.len() == i,
                forall|v: int| 0 <= v < i ==> isr_table@[v] == IsrHandler::Unexpected,
            decreases 256 - i,
        {
            idt.push(IdtGate {
                offset_15_0: 0,
                segment_selector: 0,
                flags: 0,
                offset_31_16: 0,
                offset_63_32: 0,
                zero: 0,
            });
            isr_table.push(IsrHandler::Unexpected);
            i = i + 1;
        }
        Interrupt { idt, isr_table }
    }

    /// The descriptor value that points an entry at its stub.
    pub open spec fn spec_gate(handler: u64) -> IdtGate {
        IdtGate {
            offset_15_0: (handler & 0xffff) as u16,
            segment_selector: 0x0008,
            flags: IDT_PRESENT | IDT_DPL_0 | IDT_INT32_GATE,
            offset_31_16: ((handler >> 16) & 0xffff) as u16,
            offset_63_32: ((handler >> 32) & 0xffffffff) as u32,
            zero: 0,
        }
    }

    /// Sets a descriptor-table entry to point at its stub.
    pub fn set_idt_entry(&mut self, entry: usize, handler: u64)
        requires
            old(self).wf(),
            entry < 256,
        ensures
            final(self).wf(),
            final(self).idt@ == old(self).idt@.update(entry as int, Self::spec_gate(handler)),
            final(self).isr_table == old(self).isr_table,
    {
        proof {
            assert(handler & 0xffff < 0x10000) by (bit_vector);
            assert((handler >> 16) & 0xffff < 0x10000) by (bit_vector);
            assert((handler >> 32) & 0xffffffff < 0x100000000) by (bit_vector);
        }
        let g = IdtGate {
            offset_15_0: (handler & 0xffff) as u16,
            segment_selector: 0x0008,
            flags: IDT_PRESENT | IDT_DPL_0 | IDT_INT32_GATE,
            offset_31_16: ((handler >> 16) & 0xffff) as u16,
            offset_63_32: ((handler >> 32) & 0xffffffff) as u32,
            zero: 0,
        };
        self.idt.set(entry, g);
    }

    /// Installs a handler for a vector and hands back the old one.
    pub fn __install_isr(&mut self, vector: usize, handler: IsrHandler) -> (old_handler: IsrHandler)
        requires
            old(self).wf(),
            vector < 256,
        ensures
            final(self).wf(),
            old_handler == old(self).isr_table@[vector as int],
            final(self).isr_table@ == old(self).isr_table@.update(vector as int, handler),
            final(self).idt == old(self).idt,
    {
        let old_handler = self.isr_table[vector];
        self.isr_table.set(vector, handler);
        old_handler
    }

    /// Initializes the descriptor table: every entry points at its
    /// stub (the stubs differ in length where the hardware pushes an
    /// error code) and gets the unexpected handler; then the keyboard
    /// and timer vectors become expected and the spurious vector gets
    /// its own handler.
    pub fn init_idt(&mut self, stub_table: u64)
        requires
            old(self).wf(),
            stub_table + 256 * 9 <= u64::MAX,
        ensures
            final(self).wf(),
            forall|v: int| 0 <= v < 256
                    && v != x86arch::INT_VEC_KEYBOARD && v != x86arch::INT_VEC_TIMER
                    && v != x86arch::INT_VEC_MYSTERY
                ==> final(self).isr_table@[v] == IsrHandler::Unexpected,
            final(self).isr_table@[x86arch::INT_VEC_KEYBOARD as int] == IsrHandler::Expected,
            final(self).isr_table@[x86arch::INT_VEC_TIMER as int] == IsrHandler::Expected,
            final(self).isr_table@[x86arch::INT_VEC_MYSTERY as int] == IsrHandler::Mystery,
    {
        let mut idt_addr = stub_table;
        let mut i: usize = 0;
        while i < ISR_TAB_USIZE
            invariant
                i <= 256,
                self.wf(),
                idt_addr <= stub_table + 9 * i,
                stub_table + 256 * 9 <= u64::MAX,
                forall|v: int| 0 <= v < i
                    ==> self.isr_table@[v] == IsrHandler::Unexpected,
            decreases 256 - i,
        {
            self.set_idt_entry(i, idt_addr);
            self.__install_isr(i, IsrHandler::Unexpected);
            // The stubs for vectors with a hardware error code are
            // shorter.
            if i == 0x08 || (i >= 10 && i <= 14) || i == 17 {
                idt_addr = idt_addr + 7;
            } else {
                idt_addr = idt_addr + 9;
            }
            i = i + 1;
        }

        self.__install_isr(x86arch::INT_VEC_KEYBOARD, IsrHandler::Expected);
        self.__install_isr(x86arch::INT_VEC_TIMER, IsrHandler::Expected);
        self.__install_isr(x86arch::INT_VEC_MYSTERY, IsrHandler::Mystery);
    }
}

/// The handler for a vector nothing was registered for: there is no
/// safe continuation, the machine halts.
pub fn __default_unexpected_handler(vector: i32, code: i32) -> (r: IsrOutcome)
    ensures
        r == IsrOutcome::Halt,
{
    IsrOutcome::Halt
}

/// The handler for expected hardware interrupts: within the remapped
/// hardware range the controller is acknowledged, the slave too for
/// its vectors; outside it the machine halts.
pub fn __default_expected_handler(vector: i32, code: i32) -> (r: IsrOutcome)
    ensures
        r == (if 0x20 <= vector < 0x30 {
            if vector > 0x27 {
                IsrOutcome::AckBoth
            } else {
                IsrOutcome::AckMaster
            }
        } else {
            IsrOutcome::Halt
        }),
{
    if vector >= 0x20 && vector < 0x30 {
        if vector > 0x27 {
            IsrOutcome::AckBoth
        } else {
            IsrOutcome::AckMaster
        }
    } else {
        IsrOutcome::Halt
    }
}

/// The handler for the mysterious spurious vector: acknowledge and
/// carry on.
pub fn __default_mystery_handler(vector: i32, code: i32) -> (r: IsrOutcome)
    ensures
        r == IsrOutcome::AckMaster,
{
    IsrOutcome::AckMaster
}

/// Initializes the interrupt tables. Programming the interrupt
/// controller's ports happens at the hardware edge, outside the core.
pub fn __init_interrupts(intr: &mut Interrupt, stub_table: u64)
    requires
        old(intr).wf(),
        stub_table + 256 * 9 <= u64::MAX,
    ensures
        final(intr).wf(),
        final(intr).isr_table@[x86arch::INT_VEC_KEYBOARD as int] == IsrHandler::Expected,
        final(intr).isr_table@[x86arch::INT_VEC_TIMER as int] == IsrHandler::Expected,
        final(intr).isr_table@[x86arch::INT_VEC_MYSTERY as int] == IsrHandler::Mystery,
{
    intr.init_idt(stub_table);
}

} // verus!
