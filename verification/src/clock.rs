//! The clock: the system tick counter and the visual pinwheel the
//! timer interrupt spins in the screen corner.

use vstd::prelude::*;
use crate::c_io::Cio;
use crate::common;
use crate::interrupt::Interrupt;
use crate::interrupt::IsrHandler;
use crate::kernel::lemma_kernel_frame;
use crate::kernel::Kernel;
use crate::scheduler::wrap8;
use crate::x86arch;

verus! {

/// Pinwheel glyphs, cycled one per tenth of a second: the bytes for
/// `|`, `/`, `-` and `\`.
pub open spec fn spec_pin(i: u32) -> u8 {
    if i % 4 == 0 {
        0x7c
    } else if i % 4 == 1 {
        0x2f
    } else if i % 4 == 2 {
        0x2d
    } else {
        0x5c
    }
}

/// The pinwheel glyph for spin count `i`.
pub fn pin(i: u32) -> (c: u8)
    ensures
        c == spec_pin(i),
{
    let r = i % 4;
    if r == 0 {
        0x7c
    } else if r == 1 {
        0x2f
    } else if r == 2 {
        0x2d
    } else {
        0x5c
    }
}

/// Clock state: the divider and index of the pinwheel, and the system
/// time in timer ticks.
pub struct Clock {
    pub pinwheel: i32,
    pub pindex: u32,
    pub system_time: u64,
}

impl Clock {
    /// The pinwheel divider stays below one tenth of a second's worth
    /// of ticks.
    pub open spec fn wf(self) -> bool {
        0 <= self.pinwheel < common::CLOCK_FREQUENCY / 10
    }

    /// A clock at time zero whose pinwheel turns on the first tick.
    pub fn new() -> (r: Clock)
        ensures
            r.wf(),
            r.system_time == 0,
            r.pindex == 0,
            r.pinwheel == common::CLOCK_FREQUENCY / 10 - 1,
    {
        Clock { pinwheel: common::CLOCK_FREQUENCY / 10 - 1, pindex: 0, system_time: 0 }
    }

    /// Sets time. Shouldn't be used, really.
    pub fn set_time(&mut self, t: u64)
        ensures
            final(self).system_time == t,
            final(self).pinwheel == old(self).pinwheel,
            final(self).pindex == old(self).pindex,
    {
        self.system_time = t;
    }

    /// Increments system time.
    pub fn incr_time(&mut self)
        requires
            old(self).system_time < u64::MAX,
        ensures
            final(self).system_time == old(self).system_time + 1,
            final(self).pinwheel == old(self).pinwheel,
            final(self).pindex == old(self).pindex,
    {
        self.system_time = self.system_time + 1;
    }

    /// Fetches system time.
    pub fn get_time(&self) -> (t: u64)
        ensures
            t == self.system_time,
    {
        self.system_time
    }

    /// Advances the pinwheel divider; every tenth of a second it spins
    /// the pinwheel one step and draws it in the screen corner.
    pub fn pin_deal(&mut self, w: &mut Cio)
        requires
            old(self).wf(),
            old(self).pindex < u32::MAX,
            old(w).bounds_ok(),
        ensures
            final(self).wf(),
            final(self).system_time == old(self).system_time,
            final(w).bounds_ok(),
            *final(w) == (Cio { buffer: final(w).buffer, ..*old(w) }),
            old(self).pinwheel + 1 < common::CLOCK_FREQUENCY / 10 ==> {
                &&& final(self).pinwheel == old(self).pinwheel + 1
                &&& final(self).pindex == old(self).pindex
                &&& *final(w) == *old(w)
            },
            old(self).pinwheel + 1 == common::CLOCK_FREQUENCY / 10 ==> {
                &&& final(self).pinwheel == 0
                &&& final(self).pindex == old(self).pindex + 1
                // The next pinwheel glyph lands in the screen corner.
                &&& (if 79 < old(w).max_x {
                    final(w).buffer@ == old(w).buffer@.update(
                        crate::c_io::cell_at(79, 0),
                        crate::c_io::glyph(spec_pin((old(self).pindex + 1) as u32)),
                    )
                } else {
                    final(w).buffer@ == old(w).buffer@
                })
            },
    {
        self.pinwheel = self.pinwheel + 1;
        if self.pinwheel == common::CLOCK_FREQUENCY / 10 {
            self.pinwheel = 0;
            self.pindex = self.pindex + 1;
            let c = pin(self.pindex);
            proof {
                // None of the pinwheel glyphs reads as a newline.
                assert((c & 0x7f) != 0x0a) by (bit_vector)
                    requires c == 0x7c || c == 0x2f || c == 0x2d || c == 0x5c;
            }
            w.c_putchar_at(79, 0, c);
        }
    }
}

/// What one timer tick does: time advances by one; with quantum left
/// the running process only ages, and with it exhausted the process
/// is re-enqueued Ready at the tail and the next queued process runs
/// with a fresh quantum.
pub open spec fn spec_tick_effect(k0: Kernel, k1: Kernel) -> bool {
    &&& k1.clock.system_time == k0.clock.system_time + 1
    &&& k1.sched.proc_stat == k0.sched.proc_stat
    &&& k1.sched.in_use == k0.sched.in_use
    &&& k1.pool == k0.pool
    &&& k1.pids == k0.pids
    &&& k1.halted == k0.halted
    &&& k1.interrupt == k0.interrupt
    &&& k1.stk == k0.stk
    &&& ({
            let pre = k0.sched;
            let cur = pre.cur_slot();
            &&& (pre.procs@[cur].ticks > 1 ==> {
                // Quantum left: the same process keeps running, one
                // tick older.
                &&& k1.cur_slot() == cur
                &&& k1.sched.q == pre.q
                &&& k1.sched.procs@ == pre.procs@.update(cur, crate::pcbs::Pcb {
                    ticks: (pre.procs@[cur].ticks - 1) as u8,
                    ..pre.procs@[cur]
                })
            })
            &&& (pre.procs@[cur].ticks == 1 ==> {
                // Quantum exhausted: the process is re-enqueued at the
                // tail, Ready, and the next queued process runs with a
                // fresh quantum.
                &&& k1.sched.q@ == pre.q@.update(
                    pre.sched_ptr as int, pre.q@[pre.current as int],
                ).update(pre.current as int, -1i8)
                &&& k1.sched.qlen() == pre.qlen()
                &&& k1.cur_slot() == (
                    if wrap8(pre.current + 1) == pre.sched_ptr as int {
                        cur
                    } else {
                        pre.q@[wrap8(pre.current + 1)] as int
                    })
                &&& k1.sched.procs@[k1.cur_slot()].ticks
                    == crate::scheduler::QUANTUM_STD
                &&& k1.sched.procs@[k1.cur_slot()].state == crate::pcbs::ST_RUNNING
                &&& (k1.cur_slot() != cur
                    ==> k1.sched.procs@[cur].state == crate::pcbs::ST_READY)
            })
        })
}

/// The timer interrupt: spins the pinwheel, advances system time, and
/// ages the running process's quantum by one tick. When the quantum
/// runs out the process is re-enqueued at the tail of the ready queue
/// and the next queued process is dispatched within the same tick.
/// The caller acknowledges the interrupt afterwards, unconditionally.
#[verifier::rlimit(100)]
pub fn _clk_isr(k: &mut Kernel, vector: i32, code: i32)
    requires
        old(k).inv(),
        old(k).dispatched(),
        old(k).clock.system_time < u64::MAX,
        old(k).clock.pindex < u32::MAX,
    ensures
        final(k).inv(),
        final(k).dispatched(),
        spec_tick_effect(*old(k), *final(k)),
{
    k.clock.pin_deal(&mut k.cio);
    k.clock.incr_time();

    // Get the running process and age its quantum.
    let curr = k.sched.get_curr();
    let ghost pre = old(k).sched;
    let ghost cur = pre.cur_slot();
    let p = k.sched.get_pcb(curr);
    let spot = p.spot;
    k.sched.procs.set(curr, crate::pcbs::Pcb { ticks: p.ticks - 1, ..p });
    let ghost sd = k.sched;

    proof {
        assert forall|i: int| 0 <= i < 8 && i != cur
            implies #[trigger] sd.procs@[i] == pre.procs@[i]
        by {}
        assert(sd.wf());
        assert(sd.nodup());
        assert forall|t: int| 0 <= t < 8
            implies (sd.occupied(#[trigger] sd.cell_back(t)) <==> t < sd.qlen())
        by {
            assert(sd.cell_back(t) == pre.cell_back(t));
            assert(pre.occupied(pre.cell_back(t)) <==> t < pre.qlen());
        }
        assert(sd.cursor_ok());
        assert(sd.states_ok());
        assert(sd.running_only_current());
    }

    // If no more time, reschedule and dispatch a new process.
    if k.sched.procs[curr].ticks < 1 {
        proof {
            crate::scheduler::lemma_qlen_le_live(sd);
            assert(sd.cell_back(7) == sd.sched_ptr as int);
            assert(!sd.occupied(sd.sched_ptr as int));
            assert(sd.procs@[cur].state == crate::pcbs::ST_RUNNING);
            assert(sd.can_enqueue(cur));
            assert(spot as int == cur);
        }
        k.sched._schedule(spot);
        let ghost s1 = k.sched;
        proof {
            crate::scheduler::lemma_q_rotate_mid(sd, s1);
        }
        k.sched._dispatch();
        proof {
            let s2 = k.sched;
            crate::scheduler::lemma_q_rotate(sd, s1, s2);
            crate::scheduler::lemma_identity_preserved(pre, s2);
            lemma_kernel_frame(*old(k), *k);
            assert(k.inv());
        }
    } else {
        proof {
            let s = k.sched;
            assert(s.ticks_ok());
            crate::scheduler::lemma_identity_preserved(pre, s);
            lemma_kernel_frame(*old(k), *k);
            assert(k.inv());
        }
    }
}

/// Registers the clock handler on the timer vector. Programming the
/// timer chip's frequency is port output and happens at the hardware
/// edge, outside the core.
pub fn _clk_init(intr: &mut Interrupt)
    requires
        old(intr).wf(),
    ensures
        final(intr).wf(),
        final(intr).isr_table@ == old(intr).isr_table@.update(
            x86arch::INT_VEC_TIMER as int, IsrHandler::Clock),
{
    intr.__install_isr(x86arch::INT_VEC_TIMER, IsrHandler::Clock);
}

} // verus!
