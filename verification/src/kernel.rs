//! The kernel object: one owned value holding every subsystem, with
//! the global invariant that ties the scheduler, the process table
//! and the stack arena together, and the boot path that brings the
//! init process up.

use vstd::prelude::*;
use crate::c_io::Cio;
use crate::clock::Clock;
use crate::counting::count_if;
use crate::counting::lemma_count_ge_one;
use crate::counting::lemma_count_none;
use crate::counting::lemma_count_update;
use crate::interrupt::Interrupt;
use crate::pcbs;
use crate::pcbs::Pids;
use crate::pcbs::CXT_RSP;
use crate::scheduler::live_pred;
use crate::scheduler::occ_pred;
use crate::scheduler::child_pred;
use crate::scheduler::wrap8;
use crate::scheduler::Scheduler;
use crate::stacks;
use crate::stacks::StackPool;
use crate::stacks::SysStack;
use crate::stacks::STACK_BYTES;
use crate::syscalls;
use crate::clock::_clk_init;

verus! {

/// The kernel: every subsystem as one owned value. The interrupt
/// discipline of the hardware makes all of this single-writer; owning
/// it in one place makes that explicit.
pub struct Kernel {
    pub cio: Cio,
    pub interrupt: Interrupt,
    pub clock: Clock,
    pub pids: Pids,
    pub sched: Scheduler,
    pub pool: StackPool,
    pub stk: SysStack,
    /// Terminal state: set when an interrupt arrives that has no safe
    /// continuation.
    pub halted: bool,
}

impl Kernel {
    /// The saved context of the process at slot `i` sits inside that
    /// process's own stack.
    pub open spec fn cxt_placed(self, i: int) -> bool {
        self.pool.cxt_ok(self.sched.procs@[i].cxt, self.sched.procs@[i].stack)
    }

    /// Word index of a register field of slot `i`'s saved context.
    pub open spec fn cxt_word(self, i: int, off: int) -> int {
        self.pool.word_at(self.sched.procs@[i].cxt) + off
    }

    /// Value of a register field of slot `i`'s saved context.
    pub open spec fn cxt_field(self, i: int, off: int) -> u64 {
        self.pool.words()[self.cxt_word(i, off)]
    }

    /// The memory conjuncts of the invariant: the arena is well
    /// formed, process ids are fresh against the allocator, every live
    /// process's context lies inside its own stack, every saved stack
    /// pointer stays within its stack, and no two live processes share
    /// a stack.
    pub open spec fn mem_inv(self) -> bool {
        &&& self.pool.wf()
        &&& self.pids.curr >= pcbs::PID_FIRST
        &&& forall|i: int| 0 <= i < 8 && #[trigger] self.sched.proc_stat@[i] == 1
            ==> self.sched.procs@[i].pid < self.pids.curr
        &&& forall|i: int| 0 <= i < 8 && #[trigger] self.sched.proc_stat@[i] == 1
            ==> self.cxt_placed(i)
        &&& forall|i: int| 0 <= i < 8 && #[trigger] self.sched.proc_stat@[i] == 1
            ==> self.cxt_field(i, CXT_RSP as int)
                <= self.sched.procs@[i].stack + STACK_BYTES
        &&& forall|i: int, j: int|
            0 <= i < 8 && 0 <= j < 8 && i != j
                && #[trigger] self.sched.proc_stat@[i] == 1
                && #[trigger] self.sched.proc_stat@[j] == 1
            ==> self.sched.procs@[i].stack != self.sched.procs@[j].stack
    }

    /// The global invariant: the scheduling invariant, the identity
    /// and accounting invariants of the process table, and the memory
    /// facts tying every live process to its stack and context.
    pub open spec fn inv(self) -> bool {
        &&& self.sched.q_inv()
        &&& self.sched.in_use <= 7
        &&& self.sched.pids_unique()
        &&& self.sched.children_ok()
        &&& self.sched.init_ok()
        &&& self.sched.parent_ok()
        &&& self.sched.zombies_childless()
        &&& self.sched.no_self_parent()
        &&& self.mem_inv()
        &&& forall|i: int| 0 <= i < 8 && #[trigger] self.sched.proc_stat@[i] == 0
            ==> self.sched.procs@[i].state != pcbs::ST_ZOMBIE
        &&& self.clock.wf()
        &&& self.cio.wf()
        &&& self.interrupt.wf()
    }

    /// A process is dispatched: the read cursor names the Running one.
    pub open spec fn dispatched(self) -> bool {
        self.sched.dispatched()
    }

    /// Slot of the currently dispatched process.
    pub open spec fn cur_slot(self) -> int {
        self.sched.cur_slot()
    }

    /// A kernel whose subsystems are built and not yet booted: no
    /// process admitted, nothing scheduled. `mem_base` is where the
    /// stack arena's addresses begin; `exit_point` is the address a
    /// process function returns to when it falls off its end.
    pub fn new(mem_base: u64, exit_point: u64) -> (k: Kernel)
        requires
            mem_base % 8 == 0,
        ensures
            k.sched.q_inv(),
            k.sched.in_use == 0,
            k.sched.qlen() == 0,
            !k.sched.dispatched(),
            forall|i: int| 0 <= i < 8 ==> k.sched.procs@[i] == pcbs::Pcb::spec_empty(),
            k.pool.wf(),
            k.pool.words().len() == 0,
            k.pool.spec_base() == mem_base,
            k.pool.spec_exit_point() == exit_point,
            k.pids.curr == pcbs::PID_FIRST,
            k.clock.wf(),
            k.clock.system_time == 0,
            k.cio.wf(),
            k.interrupt.wf(),
            !k.halted,
    {
        Kernel {
            cio: Cio::new(),
            interrupt: Interrupt::new(),
            clock: Clock::new(),
            pids: Pids::new(),
            sched: Scheduler::new(),
            pool: StackPool::new(mem_base, exit_point),
            stk: SysStack::new(0),
            halted: false,
        }
    }
}

/// System initialization: announces itself on the console, sets up the
/// interrupt, clock, stack, scheduler and syscall subsystems, then
/// creates the init process, schedules it and dispatches it. After
/// this the kernel invariant holds and init is Running.
pub fn rs_sys_init(k: &mut Kernel, init_entry: u64, stub_table: u64)
    requires
        old(k).sched.q_inv(),
        old(k).sched.in_use == 0,
        old(k).sched.qlen() == 0,
        !old(k).sched.dispatched(),
        forall|i: int| 0 <= i < 8
            ==> old(k).sched.procs@[i].state != pcbs::ST_ZOMBIE,
        old(k).pool.wf(),
        old(k).pool.words().len() + 2048 <= usize::MAX,
        old(k).pool.spec_base() as int + 8 * (old(k).pool.words().len() + 2048)
            <= u64::MAX as int,
        old(k).pids.curr >= pcbs::PID_FIRST,
        old(k).clock.wf(),
        old(k).cio.wf(),
        old(k).cio.max_y >= 1,
        old(k).interrupt.wf(),
        stub_table + 256 * 9 <= u64::MAX,
    ensures
        final(k).inv(),
        final(k).dispatched(),
        final(k).cur_slot() == 0,
        final(k).sched.procs@[0].pid == pcbs::PID_INIT,
        final(k).sched.procs@[0].ppid == pcbs::PID_INIT,
        final(k).sched.procs@[0].state == pcbs::ST_RUNNING,
        final(k).sched.procs@[0].ticks == crate::scheduler::QUANTUM_STD,
        final(k).sched.procs@[0].children == 0,
        final(k).sched.in_use == 1,
        final(k).clock.system_time == old(k).clock.system_time,
        final(k).pids.curr == old(k).pids.curr,
        final(k).halted == old(k).halted,
{
    k.cio.c_clearscreen();
    k.cio.c_setscroll(0, 7, 99, 99);
    k.cio.c_puts_at(0, 6,
        "================================================================================");
    k.cio.c_puts("System init starting\n");
    k.cio.c_puts("--------------------\n");
    k.cio.c_puts("Modules:\n");
    crate::interrupt::__init_interrupts(&mut k.interrupt, stub_table);
    _clk_init(&mut k.interrupt);

    // The system stack.
    let sys_base = k.pool.stk_alloc();
    k.stk = SysStack::new(sys_base);
    stacks::_stk_init(&mut k.stk);

    k.sched._clear_sched();
    syscalls::_syscall_init(&mut k.interrupt);

    // The init process: a fresh stack seeded with a context that
    // starts at the given entry point.
    let entry = init_entry;
    let stk_addr = k.pool.stk_alloc();
    let cxt = k.pool.stk_setup(stk_addr, entry);
    let ghost s0 = k.sched;
    k.sched._add_proc(cxt, stk_addr, 0, 0, pcbs::PID_INIT, pcbs::PID_INIT, 0);
    let ghost s1 = k.sched;
    proof {
        if s0.proc_stat@[0] == 1 {
            lemma_count_ge_one(live_pred(s0.proc_stat@), 8, 0);
        }
        lemma_count_none(occ_pred(s1.q@), 8);
    }
    k.sched._schedule(0);
    let ghost s2 = k.sched;
    proof {
        // The queue was empty, so the write cell was free and init is
        // now queued at it; the read cursor stands just before it.
        assert(s1.can_enqueue(0));
        lemma_count_update(occ_pred(s1.q@), occ_pred(s2.q@), 8, s1.sched_ptr as int);
        assert(s2.qlen() == 1);
        assert(wrap8(s1.current + 1) == s1.sched_ptr as int);
        assert(s2.q@[wrap8(s2.current + 1)] == 0);
    }
    k.sched._dispatch();
    let ghost s3 = k.sched;
    proof {
        let sp = s1.sched_ptr as int;
        let cur = s1.current as int;
        assert(cur != sp);
        lemma_count_update(occ_pred(s2.q@), occ_pred(s3.q@), 8, cur);
        assert(s3.qlen() == 1);
        assert forall|j: int| 0 <= j < 8 && j != sp implies s3.q@[j] == -1 by {
            assert(s1.q@[j] == -1);
        }
        assert(s3.q@[sp] == 0);
        assert(s3.current as int == sp);
        assert(s3.sched_ptr as int == wrap8(sp + 1));

        // Structural well-formedness of the scheduler.
        lemma_count_update(live_pred(s0.proc_stat@), live_pred(s3.proc_stat@), 8, 0);
        assert(s3.wf());
        assert(s3.nodup());
        assert forall|t: int| 0 <= t < 8
            implies (s3.occupied(#[trigger] s3.cell_back(t)) <==> t < s3.qlen())
        by {
            if t == 0 {
                assert(s3.cell_back(0) == sp);
            } else {
                assert(s3.cell_back(t) != sp);
            }
        }
        assert(s3.cursor_ok());
        assert(s3.states_ok());
        assert(s3.running_only_current());
        assert(s3.ticks_ok());

        // Identity and accounting invariants. Only slot 0 is live.
        assert forall|i: int| 0 < i < 8 implies #[trigger] s3.proc_stat@[i] == 0 by {
            if s0.proc_stat@[i] == 1 {
                lemma_count_ge_one(live_pred(s0.proc_stat@), 8, i);
            }
            assert(s3.proc_stat@[i] == s0.proc_stat@[i]);
        }
        assert(s3.pids_unique());
        lemma_count_none(child_pred(s3.proc_stat@, s3.procs@, 0), 8);
        assert(s3.children_ok());
        assert(s3.init_ok());
        assert(s3.parent_ok());
        assert(s3.zombies_childless());
        assert(k.inv());
    }
}

/// The memory conjuncts of the kernel invariant survive any step that
/// leaves the arena, the pid allocator, the in-use flags and every
/// process's context and stack addresses alone.
pub proof fn lemma_kernel_frame(k0: Kernel, k1: Kernel)
    requires
        k0.mem_inv(),
        k0.sched.len_ok(),
        k1.pool.spec_base() == k0.pool.spec_base(),
        k1.pool.spec_exit_point() == k0.pool.spec_exit_point(),
        k1.pool.words() == k0.pool.words(),
        k1.pids == k0.pids,
        k1.sched.proc_stat@.len() == 8,
        forall|i: int| 0 <= i < 8 && #[trigger] k1.sched.proc_stat@[i] == 1
            ==> k0.sched.proc_stat@[i] == 1,
        k1.sched.procs@.len() == 8,
        forall|i: int| 0 <= i < 8 ==> #[trigger] k1.sched.procs@[i].cxt == k0.sched.procs@[i].cxt,
        forall|i: int| 0 <= i < 8
            ==> #[trigger] k1.sched.procs@[i].stack == k0.sched.procs@[i].stack,
        forall|i: int| 0 <= i < 8 ==> #[trigger] k1.sched.procs@[i].pid == k0.sched.procs@[i].pid,
    ensures
        forall|i: int| 0 <= i < 8 && #[trigger] k1.sched.proc_stat@[i] == 1
            ==> k1.sched.procs@[i].pid < k1.pids.curr,
        forall|i: int| 0 <= i < 8 && #[trigger] k1.sched.proc_stat@[i] == 1
            ==> k1.cxt_placed(i),
        forall|i: int| 0 <= i < 8 && #[trigger] k1.sched.proc_stat@[i] == 1
            ==> k1.cxt_field(i, CXT_RSP as int)
                <= k1.sched.procs@[i].stack + STACK_BYTES,
        forall|i: int, j: int|
            0 <= i < 8 && 0 <= j < 8 && i != j
                && #[trigger] k1.sched.proc_stat@[i] == 1
                && #[trigger] k1.sched.proc_stat@[j] == 1
            ==> k1.sched.procs@[i].stack != k1.sched.procs@[j].stack,
{
    assert forall|i: int| 0 <= i < 8 && #[trigger] k1.sched.proc_stat@[i] == 1
        implies k1.cxt_placed(i)
            && k1.cxt_field(i, CXT_RSP as int)
                <= k1.sched.procs@[i].stack + STACK_BYTES
    by {
        assert(k0.sched.proc_stat@[i] == 1);
        assert(k0.cxt_placed(i));
    }
}

/// Writing one register field other than the stack pointer in a live
/// process's saved context leaves every context well placed and every
/// saved stack pointer within its stack: the written word belongs to
/// the target's context alone.
pub proof fn lemma_cxt_write_preserved(k0: Kernel, k1: Kernel, t: int, off: int, v: u64)
    requires
        k0.mem_inv(),
        k0.sched.len_ok(),
        0 <= t < 8,
        k0.sched.proc_stat@[t] == 1,
        0 <= off < pcbs::CXT_WORDS as int,
        off != CXT_RSP as int,
        k1.pool.spec_base() == k0.pool.spec_base(),
        k1.pool.spec_exit_point() == k0.pool.spec_exit_point(),
        k1.pool.words() == k0.pool.words().update(k0.cxt_word(t, off), v),
        k1.pids == k0.pids,
        k1.sched.proc_stat@.len() == 8,
        forall|i: int| 0 <= i < 8 && #[trigger] k1.sched.proc_stat@[i] == 1
            ==> k0.sched.proc_stat@[i] == 1,
        k1.sched.procs@.len() == 8,
        forall|i: int| 0 <= i < 8 ==> #[trigger] k1.sched.procs@[i].cxt == k0.sched.procs@[i].cxt,
        forall|i: int| 0 <= i < 8
            ==> #[trigger] k1.sched.procs@[i].stack == k0.sched.procs@[i].stack,
        forall|i: int| 0 <= i < 8 ==> #[trigger] k1.sched.procs@[i].pid == k0.sched.procs@[i].pid,
    ensures
        forall|i: int| 0 <= i < 8 && #[trigger] k1.sched.proc_stat@[i] == 1
            ==> k1.sched.procs@[i].pid < k1.pids.curr,
        forall|i: int| 0 <= i < 8 && #[trigger] k1.sched.proc_stat@[i] == 1
            ==> k1.cxt_placed(i),
        forall|i: int| 0 <= i < 8 && #[trigger] k1.sched.proc_stat@[i] == 1
            ==> k1.cxt_field(i, CXT_RSP as int)
                <= k1.sched.procs@[i].stack + STACK_BYTES,
        forall|i: int, j: int|
            0 <= i < 8 && 0 <= j < 8 && i != j
                && #[trigger] k1.sched.proc_stat@[i] == 1
                && #[trigger] k1.sched.proc_stat@[j] == 1
            ==> k1.sched.procs@[i].stack != k1.sched.procs@[j].stack,
        k1.cxt_field(t, off) == v,
{
    let tcxt = k0.sched.procs@[t].cxt;
    let tstk = k0.sched.procs@[t].stack;
    assert(k0.cxt_placed(t));
    k0.pool.lemma_cxt_word(tcxt, tstk, off);
    assert forall|i: int| 0 <= i < 8 && #[trigger] k1.sched.proc_stat@[i] == 1
        implies k1.cxt_placed(i)
            && k1.cxt_field(i, CXT_RSP as int)
                <= k1.sched.procs@[i].stack + STACK_BYTES
    by {
        assert(k0.sched.proc_stat@[i] == 1);
        assert(k0.cxt_placed(i));
        let icxt = k0.sched.procs@[i].cxt;
        let istk = k0.sched.procs@[i].stack;
        k0.pool.lemma_cxt_word(icxt, istk, CXT_RSP as int);
        if i == t {
            // Same context, different register.
            assert(k0.cxt_word(i, CXT_RSP as int) != k0.cxt_word(t, off));
        } else {
            // Different stacks, disjoint word ranges.
            assert(istk != tstk);
            k0.pool.lemma_stacks_disjoint(istk, tstk);
            assert(k0.cxt_word(i, CXT_RSP as int) != k0.cxt_word(t, off));
        }
        assert(k1.cxt_field(i, CXT_RSP as int) == k0.cxt_field(i, CXT_RSP as int));
    }
}

/// Address of the dispatched process's saved context, for the restore
/// trampoline.
pub fn get_curr_cxt_wrap(k: &Kernel) -> (r: u64)
    requires
        k.inv(),
        k.dispatched(),
    ensures
        r == k.sched.procs@[k.cur_slot()].cxt,
{
    k.sched.get_curr_cxt()
}

/// Replaces the dispatched process's saved-context address, for the
/// save trampoline after it has pushed a fresh context.
pub fn set_curr_cxt_wrap(k: &mut Kernel, rsp: u64)
    requires
        old(k).inv(),
        old(k).dispatched(),
        old(k).pool.cxt_ok(rsp, old(k).sched.procs@[old(k).cur_slot()].stack),
        old(k).pool.words()[old(k).pool.word_at(rsp) + CXT_RSP as int]
            <= old(k).sched.procs@[old(k).cur_slot()].stack + STACK_BYTES,
    ensures
        final(k).inv(),
        final(k).dispatched(),
        final(k).cur_slot() == old(k).cur_slot(),
        final(k).sched.procs@ == old(k).sched.procs@.update(
            old(k).cur_slot(),
            pcbs::Pcb { cxt: rsp, ..old(k).sched.procs@[old(k).cur_slot()] },
        ),
        *final(k) == (Kernel { sched: final(k).sched, ..*old(k) }),
{
    let ghost cur = k.cur_slot();
    k.sched.set_curr_cxt(rsp);
    proof {
        let s = k.sched;
        let s0 = old(k).sched;
        assert forall|i: int| 0 <= i < 8 && i != cur
            implies #[trigger] s.procs@[i] == s0.procs@[i]
        by {}
        assert(s.q@ == s0.q@);
        assert forall|i: int| 0 <= i < 8
            implies #[trigger] s.procs@[i].state == s0.procs@[i].state
                && s.procs@[i].ticks == s0.procs@[i].ticks
                && s.procs@[i].pid == s0.procs@[i].pid
                && s.procs@[i].ppid == s0.procs@[i].ppid
                && s.procs@[i].children == s0.procs@[i].children
                && s.procs@[i].spot == s0.procs@[i].spot
                && s.procs@[i].stack == s0.procs@[i].stack
        by {
            if i != cur {
                assert(s.procs@[i] == s0.procs@[i]);
            }
        }
        assert(s.wf());
        assert(s.nodup());
        assert forall|t: int| 0 <= t < 8
            implies (s.occupied(#[trigger] s.cell_back(t)) <==> t < s.qlen())
        by {
            assert(s.cell_back(t) == s0.cell_back(t));
            assert(s0.occupied(s0.cell_back(t)) <==> t < s0.qlen());
        }
        assert(s.cursor_ok());
        assert(s.states_ok());
        assert(s.running_only_current());
        assert(s.ticks_ok());
        crate::scheduler::lemma_identity_preserved(s0, s);
        assert forall|i: int| 0 <= i < 8 && #[trigger] s.proc_stat@[i] == 1
            implies final(k).cxt_placed(i)
                && final(k).cxt_field(i, CXT_RSP as int)
                    <= s.procs@[i].stack + STACK_BYTES
        by {
            if i != cur {
                assert(old(k).cxt_placed(i));
            }
        }
    }
}

/// First-level interrupt dispatch: looks the vector up in the handler
/// table and runs what is installed there. The returned outcome tells
/// the hardware edge what to do afterwards: acknowledge one or both
/// controllers, or nothing because the machine has halted. A vector
/// without a specific handler, or an expected vector outside the
/// hardware range, halts the whole kernel: an explicit terminal
/// state, there being no safe continuation.
pub fn handle_interrupt(k: &mut Kernel, vector: usize, code: i32) -> (r: crate::interrupt::IsrOutcome)
    requires
        old(k).inv(),
        vector < 256,
        old(k).interrupt.isr_table@[vector as int] == crate::interrupt::IsrHandler::Clock
            ==> {
                &&& old(k).dispatched()
                &&& old(k).clock.system_time < u64::MAX
                &&& old(k).clock.pindex < u32::MAX
            },
        old(k).interrupt.isr_table@[vector as int] == crate::interrupt::IsrHandler::Syscall
            ==> {
                &&& old(k).dispatched()
                &&& (crate::syscalls::spec_syscall_code(*old(k)) == crate::syscalls::SYS_EXIT
                    ==> {
                        let pre = old(k).sched;
                        &&& pre.procs@[pre.cur_slot()].pid != pcbs::PID_INIT
                        &&& (pre.procs@[pre.find_parent(pre.cur_slot())].state
                                == pcbs::ST_WAITING
                            || pre.qlen() >= 2)
                    })
                &&& (crate::syscalls::spec_syscall_code(*old(k)) == crate::syscalls::SYS_FORK
                    ==> old(k).pool.can_alloc() && old(k).pids.curr < u16::MAX)
                &&& (crate::syscalls::spec_syscall_code(*old(k)) == crate::syscalls::SYS_WAIT
                    ==> {
                        let pre = old(k).sched;
                        let cur = pre.cur_slot();
                        pre.procs@[cur].children >= 1
                            && pre.fz_from(pre.procs@[cur].pid, 0)
                                == crate::scheduler::NO_SLOT as int
                            ==> pre.qlen() >= 2
                    })
            },
    ensures
        final(k).inv(),
        ({
            let h = old(k).interrupt.isr_table@[vector as int];
            &&& (h == crate::interrupt::IsrHandler::Unexpected ==> {
                &&& r == crate::interrupt::IsrOutcome::Halt
                &&& final(k).halted
            })
            &&& (h == crate::interrupt::IsrHandler::Expected ==> {
                &&& r == (if 0x20 <= vector < 0x30 {
                    if vector > 0x27 {
                        crate::interrupt::IsrOutcome::AckBoth
                    } else {
                        crate::interrupt::IsrOutcome::AckMaster
                    }
                } else {
                    crate::interrupt::IsrOutcome::Halt
                })
                &&& (r == crate::interrupt::IsrOutcome::Halt ==> final(k).halted)
            })
            &&& (h == crate::interrupt::IsrHandler::Mystery
                ==> r == crate::interrupt::IsrOutcome::AckMaster)
            &&& (h == crate::interrupt::IsrHandler::Clock ==> {
                &&& r == crate::interrupt::IsrOutcome::AckMaster
                &&& final(k).dispatched()
                &&& crate::clock::spec_tick_effect(*old(k), *final(k))
            })
            &&& (h == crate::interrupt::IsrHandler::Syscall ==> {
                &&& r == crate::interrupt::IsrOutcome::AckMaster
                &&& final(k).dispatched()
                &&& crate::syscalls::spec_syscall_effect(*old(k), *final(k))
            })
        }),
{
    let handler = k.interrupt.isr_table[vector];
    match handler {
        crate::interrupt::IsrHandler::Unexpected => {
            let r = crate::interrupt::__default_unexpected_handler(vector as i32, code);
            k.halted = true;
            r
        },
        crate::interrupt::IsrHandler::Expected => {
            let r = crate::interrupt::__default_expected_handler(vector as i32, code);
            if matches!(r, crate::interrupt::IsrOutcome::Halt) {
                k.halted = true;
            }
            r
        },
        crate::interrupt::IsrHandler::Mystery => {
            crate::interrupt::__default_mystery_handler(vector as i32, code)
        },
        crate::interrupt::IsrHandler::Clock => {
            crate::clock::_clk_isr(k, vector as i32, code);
            crate::interrupt::IsrOutcome::AckMaster
        },
        crate::interrupt::IsrHandler::Syscall => {
            crate::syscalls::_sys_isr(k, vector as i32, code);
            crate::interrupt::IsrOutcome::AckMaster
        },
    }
}

/// Base address of the system stack, for the interrupt entry path.
pub fn get_stack_wrap(k: &Kernel) -> (r: u64)
    ensures
        r == k.stk.spec_stack(),
{
    k.stk.get_stack()
}

/// Saved kernel stack pointer, for the interrupt entry path.
pub fn get_rsp_wrap(k: &Kernel) -> (r: u64)
    ensures
        r == k.stk.spec_rsp(),
{
    k.stk.get_rsp()
}

} // verus!
