// Unit tests for the console, the clock, the interrupt tables and the
// stack arena.

use kernel_core::c_io;
use kernel_core::c_io::Cio;
use kernel_core::clock;
use kernel_core::clock::Clock;
use kernel_core::interrupt;
use kernel_core::interrupt::Interrupt;
use kernel_core::interrupt::IsrHandler;
use kernel_core::interrupt::IsrOutcome;
use kernel_core::pcbs;
use kernel_core::stacks::StackPool;
use kernel_core::stacks::SysStack;
use kernel_core::x86arch;

fn cell(w: &Cio, x: u32, y: u32) -> u16 {
    w.buffer[(y * 80 + x) as usize]
}

#[test]
fn putchar_at_writes_one_cell() {
    let mut w = Cio::new();
    w.c_putchar_at(3, 2, 0x41);
    assert_eq!(cell(&w, 3, 2), 0x41 | 0x0700);
    assert_eq!(cell(&w, 4, 2), 0x20 | 0x0700);
}

#[test]
fn putchar_advances_and_wraps() {
    let mut w = Cio::new();
    w.c_putchar(0x41);
    assert_eq!(w.curr_x, 1);
    assert_eq!(cell(&w, 0, 0), 0x41 | 0x0700);
    w.c_putchar(c_io::CH_CR);
    assert_eq!(w.curr_x, 0);
    w.c_putchar(c_io::CH_NL);
    assert_eq!(w.curr_x, 0);
    assert_eq!(w.curr_y, 1);
}

#[test]
fn setscroll_clamps_and_homes() {
    let mut w = Cio::new();
    w.c_setscroll(0, 7, 99, 99);
    assert_eq!(w.scroll_min_y, 7);
    assert_eq!(w.scroll_max_x, 80);
    assert_eq!(w.scroll_max_y, 25);
    assert_eq!(w.curr_x, 0);
    assert_eq!(w.curr_y, 7);
}

#[test]
fn moveto_is_relative_to_the_scroll_region() {
    let mut w = Cio::new();
    w.c_setscroll(0, 5, 80, 25);
    w.c_moveto(3, 2);
    assert_eq!(w.curr_x, 3);
    assert_eq!(w.curr_y, 7);
    w.c_moveto(1000, 1000);
    assert_eq!(w.curr_x, w.scroll_max_x);
    assert_eq!(w.curr_y, w.scroll_max_y);
}

#[test]
fn puts_at_prints_a_row() {
    let mut w = Cio::new();
    w.c_puts_at(2, 4, "ok");
    assert_eq!(cell(&w, 2, 4), 0x6f | 0x0700);
    assert_eq!(cell(&w, 3, 4), 0x6b | 0x0700);
}

#[test]
fn console_demo_runs() {
    let mut w = Cio::new();
    c_io::cio_test(&mut w);
    assert_eq!(cell(&w, 0, 0), 0x46 | 0x0700);
}

#[test]
fn clock_counts_and_spins() {
    let mut c = Clock::new();
    let mut w = Cio::new();
    assert_eq!(c.get_time(), 0);
    c.incr_time();
    c.incr_time();
    assert_eq!(c.get_time(), 2);
    c.set_time(77);
    assert_eq!(c.get_time(), 77);
    // The pinwheel turns on its first deal after construction.
    c.pin_deal(&mut w);
    assert_eq!(c.pindex, 1);
    assert_eq!(cell(&w, 79, 0), (clock::pin(1) as u16) | 0x0700);
    // Then once per hundred deals.
    for _ in 0..99 {
        c.pin_deal(&mut w);
    }
    assert_eq!(c.pindex, 1);
    c.pin_deal(&mut w);
    assert_eq!(c.pindex, 2);
}

#[test]
fn pinwheel_glyphs_cycle() {
    assert_eq!(clock::pin(0), 0x7c);
    assert_eq!(clock::pin(1), 0x2f);
    assert_eq!(clock::pin(2), 0x2d);
    assert_eq!(clock::pin(3), 0x5c);
    assert_eq!(clock::pin(4), 0x7c);
}

#[test]
fn idt_entries_point_at_their_stubs() {
    let mut t = Interrupt::new();
    t.set_idt_entry(5, 0x1234_5678_9abc_def0);
    let g = t.idt[5];
    assert_eq!(g.offset_15_0, 0xdef0);
    assert_eq!(g.offset_31_16, 0x9abc);
    assert_eq!(g.offset_63_32, 0x1234_5678);
    assert_eq!(g.segment_selector, 0x0008);
    assert_eq!(
        g.flags,
        interrupt::IDT_PRESENT | interrupt::IDT_DPL_0 | interrupt::IDT_INT32_GATE
    );
    assert_eq!(g.zero, 0);
}

#[test]
fn init_idt_installs_the_defaults() {
    let mut t = Interrupt::new();
    t.init_idt(0x5000);
    assert_eq!(t.isr_table[0], IsrHandler::Unexpected);
    assert_eq!(t.isr_table[0x42], IsrHandler::Unexpected);
    assert_eq!(t.isr_table[x86arch::INT_VEC_KEYBOARD], IsrHandler::Expected);
    assert_eq!(t.isr_table[x86arch::INT_VEC_TIMER], IsrHandler::Expected);
    assert_eq!(t.isr_table[x86arch::INT_VEC_MYSTERY], IsrHandler::Mystery);
}

#[test]
fn install_isr_returns_the_old_handler() {
    let mut t = Interrupt::new();
    let old = t.__install_isr(0x42, IsrHandler::Syscall);
    assert_eq!(old, IsrHandler::Unexpected);
    let old = t.__install_isr(0x42, IsrHandler::Expected);
    assert_eq!(old, IsrHandler::Syscall);
}

#[test]
fn default_handlers_decide_the_outcome() {
    assert_eq!(interrupt::__default_unexpected_handler(7, 0), IsrOutcome::Halt);
    assert_eq!(interrupt::__default_expected_handler(0x21, 0), IsrOutcome::AckMaster);
    assert_eq!(interrupt::__default_expected_handler(0x29, 0), IsrOutcome::AckBoth);
    assert_eq!(interrupt::__default_expected_handler(0x10, 0), IsrOutcome::Halt);
    assert_eq!(interrupt::__default_mystery_handler(0x27, 0), IsrOutcome::AckMaster);
}

#[test]
fn unexpected_interrupt_halts_the_kernel() {
    let mut k = kernel_core::kernel::Kernel::new(0x100000, 0x400000);
    kernel_core::kernel::rs_sys_init(&mut k, 0x10000, 0x5000);
    assert!(!k.halted);
    let r = kernel_core::kernel::handle_interrupt(&mut k, 0x13, 0);
    assert_eq!(r, IsrOutcome::Halt);
    assert!(k.halted);
    let r = kernel_core::kernel::handle_interrupt(&mut k, x86arch::INT_VEC_MYSTERY, 0);
    assert_eq!(r, IsrOutcome::AckMaster);
}

#[test]
fn stack_alloc_copy_and_setup() {
    let mut pool = StackPool::new(0x8000, 0xdead0);
    let a = pool.stk_alloc();
    let b = pool.stk_alloc();
    assert_eq!(a, 0x8000);
    assert_eq!(b, 0x8000 + 8192);

    pool.write_word(a + 8 * 5, 42);
    pool.stk_copy(a, b);
    assert_eq!(pool.read_word(b + 8 * 5), 42);

    let cxt = pool.stk_setup(a, 0x3333);
    assert_eq!(cxt, a + 8 * 1000);
    assert_eq!(pool.read_word(a + 8 * 1023), 0);
    assert_eq!(pool.read_word(a + 8 * 1022), 0xdead0);
    let c = pool.read_context(cxt, a);
    assert_eq!(c.rip, 0x3333);
    assert_eq!(c.rsp, a + 8 * 1022);
    assert_eq!(c.rbp, 0);
    assert_eq!(c.cs, x86arch::GDT64_CODE);
    assert_eq!(c.ss, x86arch::GDT64_DATA);
    assert_eq!(c.rflags, kernel_core::common::DEFAULT_EFLAGS);
}

#[test]
fn system_stack_parks_its_pointer() {
    let mut pool = StackPool::new(0x8000, 0);
    let base = pool.stk_alloc();
    let mut stk = SysStack::new(base);
    kernel_core::stacks::_stk_init(&mut stk);
    assert_eq!(stk.get_stack(), base);
    assert_eq!(stk.get_rsp(), base + 8192 - 2);
}

#[test]
fn pid_allocator_is_monotonic() {
    let mut pids = pcbs::Pids::new();
    assert_eq!(pids.get_next_pid(), pcbs::PID_FIRST);
    assert_eq!(pids.get_next_pid(), pcbs::PID_FIRST + 1);
    assert_eq!(pids.curr, pcbs::PID_FIRST + 2);
}

#[test]
fn find_zombie_reports_the_absence() {
    let sched = kernel_core::scheduler::Scheduler::new();
    assert_eq!(sched.find_zombie(pcbs::PID_INIT), kernel_core::scheduler::NO_SLOT as i8);
}
