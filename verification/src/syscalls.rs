//! System call implementations: a fixed dispatch keyed by the syscall
//! number carried in the caller's saved return-value register, each
//! call reading and writing the current process's saved context.

use vstd::prelude::*;
use crate::interrupt::Interrupt;
use crate::interrupt::IsrHandler;
use crate::kernel::lemma_cxt_write_preserved;
use crate::kernel::lemma_kernel_frame;
use crate::kernel::Kernel;
use crate::pcbs;
use crate::pcbs::Pcb;
use crate::pcbs::CXT_RAX;
use crate::pcbs::CXT_RDI;
use crate::pcbs::CXT_RSP;
use crate::scheduler;
use crate::scheduler::Scheduler;
use crate::scheduler::child_pred;
use crate::scheduler::occ_pred;
use crate::scheduler::live_pred;
use crate::scheduler::wrap8;
use crate::counting::lemma_count_agree;
use crate::counting::lemma_count_bounds;
use crate::counting::lemma_count_ge_one;
use crate::counting::lemma_count_none;
use crate::counting::lemma_count_update;

verus! {

// Syscall codes.
pub const SYS_EXIT: u64 = 0;
pub const SYS_FORK: u64 = 1;
pub const SYS_EXEC: u64 = 2;
pub const SYS_TIME: u64 = 3;
pub const SYS_PID: u64 = 4;
pub const SYS_PPID: u64 = 5;
pub const SYS_WAIT: u64 = 6;

pub const NUM_SYSCALLS: u64 = 7;

/// The software-interrupt vector system calls arrive on.
pub const INT_VEC_SYSCALL: usize = 0x42;

/// Value handed back where a call has no result to give: wait without
/// a child, and fork without a free slot.
pub const SYS_FAILURE: u64 = 9;

/// Writes the dispatched process's return-value register and keeps
/// the kernel invariant: the shared tail of the calls that answer
/// through the saved context.
fn write_curr_rax(k: &mut Kernel, v: u64)
    requires
        old(k).inv(),
        old(k).dispatched(),
    ensures
        final(k).inv(),
        final(k).dispatched(),
        final(k).cur_slot() == old(k).cur_slot(),
        final(k).sched == old(k).sched,
        final(k).pids == old(k).pids,
        final(k).clock == old(k).clock,
        final(k).cio == old(k).cio,
        final(k).interrupt == old(k).interrupt,
        final(k).stk == old(k).stk,
        final(k).halted == old(k).halted,
        final(k).pool.spec_base() == old(k).pool.spec_base(),
        final(k).pool.spec_exit_point() == old(k).pool.spec_exit_point(),
        final(k).pool.words() == old(k).pool.words().update(
            old(k).cxt_word(old(k).cur_slot(), CXT_RAX as int), v),
        final(k).cxt_field(final(k).cur_slot(), CXT_RAX as int) == v,
{
    let curr = k.sched.get_curr();
    let ghost cur = k.cur_slot();
    let pcxt = k.sched.get_curr_cxt();
    proof {
        assert(old(k).cxt_placed(cur));
        old(k).pool.lemma_cxt_word(
            pcxt, old(k).sched.procs@[cur].stack, CXT_RAX as int,
        );
    }
    k.pool.write_word(pcxt + 8 * CXT_RAX, v);
    proof {
        lemma_cxt_write_preserved(*old(k), *k, cur, CXT_RAX as int, v);
        assert(k.inv());
    }
}

/// Reads the dispatched process's argument register.
fn read_curr_rdi(k: &Kernel) -> (v: u64)
    requires
        k.inv(),
        k.dispatched(),
    ensures
        v == k.cxt_field(k.cur_slot(), CXT_RDI as int),
{
    let curr = k.sched.get_curr();
    let ghost cur = k.cur_slot();
    let pcxt = k.sched.get_curr_cxt();
    proof {
        assert(k.cxt_placed(cur));
        k.pool.lemma_cxt_word(pcxt, k.sched.procs@[cur].stack, CXT_RDI as int);
    }
    k.pool.read_word(pcxt + 8 * CXT_RDI)
}

/// What the time call does: the current system time lands in the
/// caller's saved return-value register; nothing else moves.
pub open spec fn spec_time_effect(k0: Kernel, k1: Kernel) -> bool {
    &&& k1.cur_slot() == k0.cur_slot()
    &&& k1.sched == k0.sched
    &&& k1.clock == k0.clock
    &&& k1.cxt_field(k1.cur_slot(), CXT_RAX as int) == k0.clock.system_time
    &&& k1.pool.words() == k0.pool.words().update(
        k0.cxt_word(k0.cur_slot(), CXT_RAX as int), k0.clock.system_time)
}

/// Gets the current system time into the caller's return register.
pub fn _sys_time(k: &mut Kernel)
    requires
        old(k).inv(),
        old(k).dispatched(),
    ensures
        final(k).inv(),
        final(k).dispatched(),
        spec_time_effect(*old(k), *final(k)),
{
    let t = k.clock.get_time();
    write_curr_rax(k, t);
}

/// What the pid call does: the caller's process id lands in its
/// saved return-value register; nothing else moves.
pub open spec fn spec_pid_effect(k0: Kernel, k1: Kernel) -> bool {
    &&& k1.cur_slot() == k0.cur_slot()
    &&& k1.sched == k0.sched
    &&& k1.clock == k0.clock
    &&& k1.cxt_field(k1.cur_slot(), CXT_RAX as int)
        == k0.sched.procs@[k0.cur_slot()].pid
}

/// Gets the process id of the caller into its return register.
pub fn _sys_pid(k: &mut Kernel)
    requires
        old(k).inv(),
        old(k).dispatched(),
    ensures
        final(k).inv(),
        final(k).dispatched(),
        spec_pid_effect(*old(k), *final(k)),
{
    let curr = k.sched.get_curr();
    let pid = k.sched.get_pcb(curr).pid;
    write_curr_rax(k, pid as u64);
}

/// What the ppid call does: the caller's parent process id lands in
/// its saved return-value register; nothing else moves.
pub open spec fn spec_ppid_effect(k0: Kernel, k1: Kernel) -> bool {
    &&& k1.cur_slot() == k0.cur_slot()
    &&& k1.sched == k0.sched
    &&& k1.clock == k0.clock
    &&& k1.cxt_field(k1.cur_slot(), CXT_RAX as int)
        == k0.sched.procs@[k0.cur_slot()].ppid
}

/// Gets the parent process id of the caller into its return register.
pub fn _sys_ppid(k: &mut Kernel)
    requires
        old(k).inv(),
        old(k).dispatched(),
    ensures
        final(k).inv(),
        final(k).dispatched(),
        spec_ppid_effect(*old(k), *final(k)),
{
    let curr = k.sched.get_curr();
    let ppid = k.sched.get_pcb(curr).ppid;
    write_curr_rax(k, ppid as u64);
}

/// What the exec call does: the caller's own stack is re-seeded in
/// place with a fresh return chain and a context starting at the
/// entry point carried in the argument register; the new context
/// becomes the one the interrupt return resumes. The arena does not
/// grow and no word outside the caller's stack moves.
pub open spec fn spec_exec_effect(k0: Kernel, k1: Kernel) -> bool {
    let cur = k0.cur_slot();
    let stk = k0.sched.procs@[cur].stack;
    &&& k1.cur_slot() == k0.cur_slot()
    &&& k1.sched.proc_stat == k0.sched.proc_stat
    &&& k1.sched.q == k0.sched.q
    &&& k1.pids == k0.pids
    &&& k1.clock == k0.clock
    &&& k1.sched.procs@ == k0.sched.procs@.update(cur, Pcb {
        cxt: (stk + 8 * (1024 - 2 - pcbs::CXT_WORDS)) as u64,
        ..k0.sched.procs@[cur]
    })
    &&& k1.cxt_field(cur, pcbs::CXT_RIP as int) == k0.cxt_field(cur, CXT_RDI as int)
    &&& k1.cxt_field(cur, pcbs::CXT_RFLAGS as int) == crate::common::DEFAULT_EFLAGS
    &&& k1.cxt_field(cur, CXT_RSP as int) == stk + 8 * 1022
    &&& k1.pool.words().len() == k0.pool.words().len()
    &&& forall|i: int| 0 <= i < k0.pool.words().len()
            && !(k0.pool.word_at(stk) <= i < k0.pool.word_at(stk) + 1024)
        ==> #[trigger] k1.pool.words()[i] == k0.pool.words()[i]
}

/// Replaces the calling process's program: re-seeds its own stack
/// with a fresh synthetic return chain and a context starting at the
/// entry point carried in the argument register, and installs that
/// context as the one the interrupt return resumes. The caller's
/// prior instruction stream is gone.
#[verifier::rlimit(60)]
pub fn _sys_exec(k: &mut Kernel)
    requires
        old(k).inv(),
        old(k).dispatched(),
    ensures
        final(k).inv(),
        final(k).dispatched(),
        spec_exec_effect(*old(k), *final(k)),
{
    let curr = k.sched.get_curr();
    let ghost cur = k.cur_slot();
    let entry = read_curr_rdi(k);
    let stk = k.sched.get_pcb(curr).stack;
    proof {
        assert(old(k).cxt_placed(cur));
    }
    let cxt = k.pool.stk_setup(stk, entry);
    k.sched.set_curr_cxt(cxt);
    proof {
        let s = k.sched;
        let s0 = old(k).sched;
        let ws = old(k).pool.word_at(stk);
        old(k).pool.lemma_stack_word(stk, 0);
        // The scheduling invariant: only the context address changed.
        assert forall|i: int| 0 <= i < 8 && i != cur
            implies #[trigger] s.procs@[i] == s0.procs@[i]
        by {}
        assert(s.q@ == s0.q@);
        assert forall|i: int| 0 <= i < 8
            implies #[trigger] s.procs@[i].state == s0.procs@[i].state
                && s.procs@[i].ticks == s0.procs@[i].ticks
                && s.procs@[i].pid == s0.procs@[i].pid
                && s.procs@[i].ppid == s0.procs@[i].ppid
                && s.procs@[i].children == s0.procs@[i].children
                && s.procs@[i].spot == s0.procs@[i].spot
                && s.procs@[i].stack == s0.procs@[i].stack
        by {
            if i != cur {
                assert(s.procs@[i] == s0.procs@[i]);
            }
        }
        assert(s.wf());
        assert(s.nodup());
        assert forall|t: int| 0 <= t < 8
            implies (s.occupied(#[trigger] s.cell_back(t)) <==> t < s.qlen())
        by {
            assert(s.cell_back(t) == s0.cell_back(t));
            assert(s0.occupied(s0.cell_back(t)) <==> t < s0.qlen());
        }
        assert(s.cursor_ok());
        assert(s.states_ok());
        assert(s.running_only_current());
        assert(s.ticks_ok());
        scheduler::lemma_identity_preserved(s0, s);

        // Memory: the re-seeded words all lie in the caller's own
        // stack, which no other process owns.
        assert(k.pool.cxt_ok(s.procs@[cur].cxt, stk));
        k.pool.lemma_cxt_word(s.procs@[cur].cxt, stk, CXT_RSP as int);
        assert forall|i: int| 0 <= i < 8 && #[trigger] s.proc_stat@[i] == 1 && i != cur
            implies k.cxt_placed(i)
                && k.cxt_field(i, CXT_RSP as int)
                    <= s.procs@[i].stack + crate::stacks::STACK_BYTES
        by {
            assert(old(k).cxt_placed(i));
            let icxt = s0.procs@[i].cxt;
            let istk = s0.procs@[i].stack;
            old(k).pool.lemma_cxt_word(icxt, istk, CXT_RSP as int);
            old(k).pool.lemma_stack_word(istk, 0);
            assert(istk != stk);
            old(k).pool.lemma_stacks_disjoint(istk, stk);
            assert(old(k).pool.words()[old(k).cxt_word(i, CXT_RSP as int)]
                == k.pool.words()[old(k).cxt_word(i, CXT_RSP as int)]);
        }
        assert(k.inv());
    }
}

/// What the wait call does. Without children: the not-found sentinel
/// in the caller's return register, at once. With a Zombie child on
/// record: the lowest-indexed one is reaped — its pid returned, its
/// slot freed, the caller's child count one lower. Otherwise the
/// caller is parked Waiting, leaves the ready queue, and the next
/// queued process runs.
pub open spec fn spec_wait_effect(k0: Kernel, k1: Kernel) -> bool {
    &&& k1.pids == k0.pids
    &&& k1.clock == k0.clock
    &&& k1.cio == k0.cio
    &&& k1.halted == k0.halted
    &&& ({
            let pre = k0.sched;
            let cur = pre.cur_slot();
            let z = pre.fz_from(pre.procs@[cur].pid, 0);
            &&& (pre.procs@[cur].children == 0 ==> {
                // No children: an immediate not-found answer.
                &&& k1.dispatched()
                &&& k1.cur_slot() == cur
                &&& k1.sched == pre
                &&& k1.cxt_field(cur, CXT_RAX as int) == SYS_FAILURE
            })
            &&& (pre.procs@[cur].children >= 1 && z != scheduler::NO_SLOT as int ==> {
                // A zombie child existed: reap it.
                &&& 0 <= z < 8
                &&& pre.procs@[z].state == pcbs::ST_ZOMBIE
                &&& pre.procs@[z].ppid == pre.procs@[cur].pid
                &&& k1.dispatched()
                &&& k1.cur_slot() == cur
                &&& k1.cxt_field(cur, CXT_RAX as int) == pre.procs@[z].pid
                &&& k1.sched.proc_stat@ == pre.proc_stat@.update(z, 0u8)
                &&& k1.sched.procs@[z].state == pcbs::ST_UNUSED
                &&& k1.sched.procs@[cur].children == pre.procs@[cur].children - 1
                &&& k1.sched.in_use == pre.in_use - 1
                &&& k1.sched.q == pre.q
                &&& forall|i: int| 0 <= i < 8 && i != z && i != cur
                    ==> #[trigger] k1.sched.procs@[i] == pre.procs@[i]
            })
            &&& (pre.procs@[cur].children >= 1 && z == scheduler::NO_SLOT as int ==> {
                // No zombie child yet: park the caller in wait.
                &&& k1.dispatched()
                &&& k1.sched.procs@[cur].state == pcbs::ST_WAITING
                &&& k1.sched.proc_stat == pre.proc_stat
                &&& k1.sched.in_use == pre.in_use
                &&& k1.sched.q@ == pre.q@.update(pre.current as int, -1i8)
                &&& k1.sched.qlen() == pre.qlen() - 1
                &&& k1.cur_slot() == pre.q@[wrap8(pre.current + 1)] as int
                &&& k1.cur_slot() != cur
                &&& k1.pool == k0.pool
                &&& forall|i: int| 0 <= i < 8 && i != cur
                        && i != pre.q@[wrap8(pre.current + 1)] as int
                    ==> #[trigger] k1.sched.procs@[i] == pre.procs@[i]
            })
    })
}

/// Waits for a child to terminate. Without children it returns the
/// not-found sentinel at once. With a Zombie child on record it reaps
/// the lowest-indexed one: its pid goes into the caller's return
/// register, the slot becomes Unused, and the caller's child count
/// drops. Otherwise the caller is parked Waiting and the CPU is given
/// away; death handling later resumes it directly.
#[verifier::rlimit(100)]
pub fn _sys_wait(k: &mut Kernel)
    requires
        old(k).inv(),
        old(k).dispatched(),
        ({
            let pre = old(k).sched;
            let cur = pre.cur_slot();
            pre.procs@[cur].children >= 1
                && pre.fz_from(pre.procs@[cur].pid, 0) == scheduler::NO_SLOT as int
                ==> pre.qlen() >= 2
        }),
    ensures
        final(k).inv(),
        final(k).dispatched(),
        spec_wait_effect(*old(k), *final(k)),
{
    let curr = k.sched.get_curr();
    let ghost cur = k.cur_slot();
    let ghost pre = old(k).sched;
    let pcb = k.sched.get_pcb(curr);

    if pcb.children < 1 {
        write_curr_rax(k, SYS_FAILURE);
        return;
    }

    let zombo = k.sched.find_zombie(pcb.pid);

    if zombo == scheduler::NO_SLOT as i8 {
        // Park the caller and give the CPU away.
        let p2 = k.sched.get_pcb(curr);
        k.sched.procs.set(curr, Pcb { state: pcbs::ST_WAITING, ..p2 });
        let ghost s1 = k.sched;
        proof {
            assert forall|i: int| 0 <= i < 8 && i != cur
                implies #[trigger] s1.procs@[i] == pre.procs@[i]
            by {}
            assert(s1.wf());
            assert(s1.nodup());
            assert forall|t: int| 0 <= t < 8
                implies (s1.occupied(#[trigger] s1.cell_back(t)) <==> t < s1.qlen())
            by {
                assert(s1.cell_back(t) == pre.cell_back(t));
                assert(pre.occupied(pre.cell_back(t)) <==> t < pre.qlen());
            }
            assert(s1.cursor_ok());
            assert forall|j: int| 0 <= j < 8 && j != s1.current && #[trigger] s1.q@[j] != -1
                implies 0 <= s1.q@[j] < 8 && s1.proc_stat@[s1.q@[j] as int] == 1
                    && s1.procs@[s1.q@[j] as int].state == pcbs::ST_READY
            by {
                assert(pre.q@[j] != -1);
                if pre.q@[j] as int == cur {
                    assert(pre.procs@[cur].state == pcbs::ST_RUNNING);
                    assert(false);
                }
            }
            assert forall|i: int| 0 <= i < 8 && #[trigger] s1.proc_stat@[i] == 1
                implies s1.procs@[i].state != pcbs::ST_RUNNING
            by {
                if i != cur && s1.procs@[i].state == pcbs::ST_RUNNING {
                    assert(pre.procs@[i].state == pcbs::ST_RUNNING);
                    assert(pre.q@[pre.current as int] == i);
                }
            }
            scheduler::lemma_q_next_occupied(s1);
        }
        k.sched._dispatch();
        proof {
            let s2 = k.sched;
            scheduler::lemma_q_dispatch(s1, s2);
            scheduler::lemma_identity_preserved(pre, s2);
            lemma_kernel_frame(*old(k), *k);
            assert(k.inv());
        }
    } else {
        // Reap the zombie child.
        let child = k.sched.get_pid(zombo);
        write_curr_rax(k, child as u64);
        let ghost km = *k;
        proof {
            assert(km.sched == pre);
            assert(pre.procs@[zombo as int].ppid == pre.procs@[cur].pid);
            assert(zombo as int != cur) by {
                assert(pre.procs@[cur].state == pcbs::ST_RUNNING);
            }
            assert(pre.live(zombo as int)) by {
                // A zombie child is counted, and counted children are
                // live.
                if pre.proc_stat@[zombo as int] != 1 {
                    // The children count of the caller is the number
                    // of its live children; a dead slot cannot be the
                    // lowest zombie child unless something is live.
                    assert(pre.procs@[cur].children == pre.count_children(cur));
                }
            }
        }
        k.sched.rem_pcb(zombo);
        let p3 = k.sched.get_pcb(curr);
        proof {
            lemma_count_ge_one(child_pred(pre.proc_stat@, pre.procs@, cur), 8, zombo as int);
            assert(pre.procs@[cur].children == pre.count_children(cur));
            assert(p3.children >= 1);
        }
        k.sched.procs.set(curr, Pcb { children: p3.children - 1, ..p3 });
        proof {
            let s2 = k.sched;
            let z = zombo as int;
            // The zombie was not in the ready queue, so the queue
            // invariant survives its removal.
            assert forall|j: int| 0 <= j < 8 && #[trigger] pre.q@[j] != -1
                implies pre.q@[j] as int != z
            by {
                if pre.q@[j] as int == z {
                    if j == pre.current as int {
                        assert(pre.procs@[z].state == pcbs::ST_RUNNING);
                    } else {
                        assert(pre.procs@[z].state == pcbs::ST_READY);
                    }
                }
            }
            assert forall|i: int| 0 <= i < 8 && i != cur && i != z
                implies #[trigger] s2.procs@[i] == pre.procs@[i]
            by {}
            assert(s2.wf());
            assert(s2.nodup());
            assert forall|t: int| 0 <= t < 8
                implies (s2.occupied(#[trigger] s2.cell_back(t)) <==> t < s2.qlen())
            by {
                assert(s2.cell_back(t) == pre.cell_back(t));
                assert(pre.occupied(pre.cell_back(t)) <==> t < pre.qlen());
            }
            assert(s2.cursor_ok());
            assert(s2.states_ok());
            assert(s2.running_only_current());
            assert(s2.ticks_ok());

            // Identity invariants after the reap.
            assert(s2.pids_unique());
            assert(s2.init_ok()) by {
                assert(z != 0) by {
                    assert(pre.procs@[0].state != pcbs::ST_ZOMBIE);
                }
            }
            // Every remaining process still has a live parent: the
            // reaped zombie had no children left to orphan.
            assert forall|i: int| 0 < i < 8 && #[trigger] s2.proc_stat@[i] == 1
                implies exists|j: int| 0 <= j < 8 && #[trigger] s2.proc_stat@[j] == 1
                    && s2.procs@[j].pid == s2.procs@[i].ppid
            by {
                let j = choose|j: int| 0 <= j < 8 && #[trigger] pre.proc_stat@[j] == 1
                    && pre.procs@[j].pid == pre.procs@[i].ppid;
                if j == z {
                    assert(pre.procs@[z].children == 0);
                    assert(pre.procs@[z].children == pre.count_children(z));
                    lemma_count_ge_one(child_pred(pre.proc_stat@, pre.procs@, z), 8, i);
                    assert(false);
                }
                assert(s2.proc_stat@[j] == 1 && s2.procs@[j].pid == s2.procs@[i].ppid);
            }
            // Child counts: the caller lost exactly the reaped child.
            assert forall|i: int| 0 <= i < 8 && #[trigger] s2.proc_stat@[i] == 1
                implies s2.procs@[i].children == s2.count_children(i)
            by {
                let f2 = child_pred(s2.proc_stat@, s2.procs@, i);
                let f0 = child_pred(pre.proc_stat@, pre.procs@, i);
                assert forall|u: int| 0 <= u < 8 && u != z
                    implies #[trigger] f2(u) == #[trigger] f0(u)
                by {
                    assert(s2.proc_stat@[u] == pre.proc_stat@[u]);
                    if u != cur {
                        assert(s2.procs@[u] == pre.procs@[u]);
                    }
                }
                lemma_count_update(f2, f0, 8, z);
                assert(!f2(z));
                if i == cur {
                    assert(f0(z));
                } else {
                    if f0(z) {
                        assert(pre.procs@[z].ppid == pre.procs@[i].pid);
                        assert(pre.procs@[z].ppid == pre.procs@[cur].pid);
                        assert(false);
                    }
                }
                assert(pre.procs@[i].children == pre.count_children(i));
            }
            assert(s2.zombies_childless());
            lemma_kernel_frame(km, *k);
            assert(k.inv());
        }
    }
}

/// The scheduler state death handling leaves behind is fit for the
/// immediate redispatch: its queue holds live Ready processes beyond
/// the (now dead or retired) head, nothing is Running, and the
/// identity invariants hold. `pe` is the state at the death call,
/// `sb` the state it left, `cur` the dying slot and `p` its parent's.
#[verifier::rlimit(100)]
proof fn lemma_exit_bite_state(pe: Scheduler, sb: Scheduler, cur: int, p: int)
    requires
        pe.q_inv(),
        pe.in_use <= 7,
        pe.pids_unique(),
        pe.children_ok(),
        pe.init_ok(),
        pe.zombies_childless(),
        pe.parent_ok(),
        pe.no_self_parent(),
        pe.dispatched(),
        cur == pe.cur_slot(),
        0 <= cur < 8,
        pe.live(cur),
        pe.procs@[cur].pid != pcbs::PID_INIT,
        pe.procs@[cur].pid != pe.procs@[cur].ppid,
        p == pe.find_parent(cur),
        0 <= p < 8,
        pe.live(p),
        pe.procs@[p].pid == pe.procs@[cur].ppid,
        p != cur,
        pe.q@[pe.sched_ptr as int] == -1,
        pe.procs@[p].state != pcbs::ST_WAITING ==> pe.qlen() >= 2,
        sb.current == pe.current,
        sb.procs@.len() == 8,
        sb.proc_stat@.len() == 8,
        sb.q@.len() == 8,
        ({
            let mid = pe.bite_mid(cur);
            if pe.procs@[p].state == pcbs::ST_WAITING {
                &&& sb.procs@ == mid.update(p, Pcb {
                        state: pcbs::ST_READY,
                        children: (mid[p].children - 1) as u16,
                        ..mid[p]
                    })
                &&& sb.proc_stat@ == pe.proc_stat@.update(cur, 0u8)
                &&& sb.in_use == pe.in_use - 1
                &&& sb.q@ == pe.q@.update(pe.sched_ptr as int, p as i8)
                &&& sb.sched_ptr == wrap8(pe.sched_ptr + 1)
            } else {
                &&& sb.procs@ == mid.update(cur, Pcb { state: pcbs::ST_ZOMBIE, ..mid[cur] })
                &&& sb.proc_stat@ == pe.proc_stat@
                &&& sb.in_use == pe.in_use
                &&& sb.q@ == pe.q@
                &&& sb.sched_ptr == pe.sched_ptr
            }
        }),
    ensures
        sb.len_ok(),
        forall|i: int| 0 <= i < 8
            ==> #[trigger] sb.proc_stat@[i] == 0 || sb.proc_stat@[i] == 1,
        forall|i: int| 0 <= i < 8 && #[trigger] sb.proc_stat@[i] == 1
            ==> sb.procs@[i].spot == i,
        sb.in_use == sb.count_live(),
        sb.nodup(),
        sb.q_shape(),
        sb.cursor_ok(),
        sb.occupied(sb.current as int),
        sb.qlen() >= 2,
        forall|j: int| 0 <= j < 8 && j != sb.current && #[trigger] sb.q@[j] != -1
            ==> 0 <= sb.q@[j] < 8 && sb.proc_stat@[sb.q@[j] as int] == 1
                && sb.procs@[sb.q@[j] as int].state == pcbs::ST_READY,
        forall|i: int| 0 <= i < 8 && #[trigger] sb.proc_stat@[i] == 1
            ==> sb.procs@[i].state != pcbs::ST_RUNNING,
        sb.q@[wrap8(sb.current + 1)] != -1,
        0 <= sb.q@[wrap8(sb.current + 1)] < 8,
        wrap8(sb.current + 1) != sb.current,
        sb.init_ok(),
        sb.parent_ok(),
        sb.no_self_parent(),
        sb.qlen() == (if pe.procs@[p].state == pcbs::ST_WAITING {
            pe.qlen() + 1
        } else {
            pe.qlen()
        }),
        forall|i: int| 0 <= i < 8
            ==> #[trigger] sb.procs@[i].cxt == pe.procs@[i].cxt
                && sb.procs@[i].stack == pe.procs@[i].stack
                && sb.procs@[i].pid == pe.procs@[i].pid,
        forall|i: int| 0 <= i < 8 && i != cur
                && !(pe.procs@[p].state == pcbs::ST_WAITING && i == p)
            ==> #[trigger] sb.procs@[i].state == pe.procs@[i].state,
        pe.procs@[p].state == pcbs::ST_WAITING ==> sb.procs@[p].state == pcbs::ST_READY,
        sb.procs@[cur].state == (if pe.procs@[p].state == pcbs::ST_WAITING {
            pe.procs@[cur].state
        } else {
            pcbs::ST_ZOMBIE
        }),
{
    let mid = pe.bite_mid(cur);
    let waiting = pe.procs@[p].state == pcbs::ST_WAITING;
    lemma_count_ge_one(occ_pred(pe.q@), 8, pe.current as int);
    assert(pe.q@[pe.current as int] == cur as i8);
    assert forall|i: int| 0 <= i < 8
        implies #[trigger] sb.procs@[i].cxt == pe.procs@[i].cxt
            && sb.procs@[i].stack == pe.procs@[i].stack
            && sb.procs@[i].pid == pe.procs@[i].pid
            && sb.procs@[i].spot == pe.procs@[i].spot
            && sb.procs@[i].ticks == pe.procs@[i].ticks
    by {
        assert(mid[i].cxt == pe.procs@[i].cxt);
    }
    assert forall|i: int| 0 <= i < 8 && i != cur && !(waiting && i == p)
        implies #[trigger] sb.procs@[i].state == pe.procs@[i].state
            && sb.procs@[i].ppid == (
                if pe.proc_stat@[i] == 1 && pe.procs@[i].ppid == pe.procs@[cur].pid {
                    pcbs::PID_INIT
                } else {
                    pe.procs@[i].ppid
                })
    by {
        assert(sb.procs@[i] == mid[i]);
    }
    assert(sb.procs@[cur].ppid == pe.procs@[cur].ppid
        && sb.procs@[cur].pid == pe.procs@[cur].pid) by {
        if waiting {
            assert(sb.procs@[cur] == mid[cur]);
        }
    }

    if waiting {
        let u0 = Scheduler {
            proc_stat: pe.proc_stat,
            procs: sb.procs,
            q: pe.q,
            in_use: pe.in_use,
            current: pe.current,
            sched_ptr: pe.sched_ptr,
        };
        let u1 = Scheduler { q: sb.q, sched_ptr: sb.sched_ptr, ..u0 };
        assert(u0.q@ == pe.q@ && u0.proc_stat@ == pe.proc_stat@);
        assert(u0.procs@[cur].state == pe.procs@[cur].state) by {
            assert(sb.procs@[cur] == mid[cur]);
        }
        assert(u0.wf());
        assert(u0.nodup());
        assert forall|t: int| 0 <= t < 8
            implies (u0.occupied(#[trigger] u0.cell_back(t)) <==> t < u0.qlen())
        by {
            assert(u0.cell_back(t) == pe.cell_back(t));
            assert(pe.occupied(pe.cell_back(t)) <==> t < pe.qlen());
        }
        assert(u0.cursor_ok());
        assert(u0.states_ok()) by {
            assert forall|j: int| 0 <= j < 8 && j != u0.current
                    && #[trigger] u0.q@[j] != -1
                implies u0.procs@[u0.q@[j] as int].state == pcbs::ST_READY
            by {
                let v = pe.q@[j] as int;
                assert(pe.procs@[v].state == pcbs::ST_READY);
                assert(v != p && v != cur);
                assert(u0.procs@[v].state == pe.procs@[v].state);
            }
        }
        assert(u0.running_only_current()) by {
            assert forall|i: int| 0 <= i < 8 && #[trigger] u0.proc_stat@[i] == 1
                    && #[trigger] u0.procs@[i].state == pcbs::ST_RUNNING
                implies u0.occupied(u0.current as int)
                    && u0.q@[u0.current as int] == i
            by {
                if i != cur {
                    assert(u0.procs@[i].state == pe.procs@[i].state);
                }
            }
        }
        assert(u0.ticks_ok());
        assert(u0.qlen() == pe.qlen());
        assert forall|j: int| 0 <= j < 8 implies #[trigger] u0.q@[j] != p as i8 by {
            if pe.q@[j] != -1 {
                let v = pe.q@[j] as int;
                if v == p {
                    if j == pe.current as int {
                        assert(pe.procs@[v].state == pcbs::ST_RUNNING);
                    } else {
                        assert(pe.procs@[v].state == pcbs::ST_READY);
                    }
                    assert(false);
                }
            }
        }
        scheduler::lemma_qlen_le_live(pe);
        assert(u0.qlen() <= 7);
        scheduler::lemma_q_enqueue(u0, u1, p);
        assert(sb.q@ == u1.q@ && sb.sched_ptr == u1.sched_ptr
            && sb.current == u1.current && sb.procs@ == u1.procs@);
        assert forall|u: int| 0 <= u < 8 && u != cur
            implies #[trigger] live_pred(pe.proc_stat@)(u)
                == #[trigger] live_pred(sb.proc_stat@)(u)
        by {
            assert(sb.proc_stat@[u] == pe.proc_stat@[u]);
        }
        lemma_count_update(
            live_pred(pe.proc_stat@), live_pred(sb.proc_stat@), 8, cur,
        );
        assert(sb.in_use == sb.count_live());
        assert(sb.nodup());
        assert forall|t: int| 0 <= t < 8
            implies (sb.occupied(#[trigger] sb.cell_back(t)) <==> t < sb.qlen())
        by {
            assert(sb.cell_back(t) == u1.cell_back(t));
            assert(u1.occupied(u1.cell_back(t)) <==> t < u1.qlen());
        }
        assert(sb.cursor_ok());
        assert(sb.qlen() == u1.qlen());
        assert(sb.occupied(sb.current as int));
        assert forall|j: int| 0 <= j < 8 && j != sb.current
                && #[trigger] sb.q@[j] != -1
            implies 0 <= sb.q@[j] < 8 && sb.proc_stat@[sb.q@[j] as int] == 1
                && sb.procs@[sb.q@[j] as int].state == pcbs::ST_READY
        by {
            assert(u1.q@[j] != -1);
            assert(u1.procs@[u1.q@[j] as int].state == pcbs::ST_READY);
            assert(u1.q@[u1.current as int] == cur as i8);
            if u1.q@[j] as int == cur {
                assert(j != u1.current as int);
                assert(false);
            }
        }
        assert forall|i: int| 0 <= i < 8 && #[trigger] sb.proc_stat@[i] == 1
            implies sb.procs@[i].state != pcbs::ST_RUNNING
        by {
            assert(i != cur);
            if sb.procs@[i].state == pcbs::ST_RUNNING {
                assert(u0.procs@[i].state == pcbs::ST_RUNNING);
                assert(u0.q@[u0.current as int] == i);
                assert(pe.q@[pe.current as int] == cur as i8);
            }
        }
    } else {
        assert(sb.in_use == sb.count_live());
        assert(sb.nodup());
        assert forall|t: int| 0 <= t < 8
            implies (sb.occupied(#[trigger] sb.cell_back(t)) <==> t < sb.qlen())
        by {
            assert(sb.cell_back(t) == pe.cell_back(t));
            assert(pe.occupied(pe.cell_back(t)) <==> t < pe.qlen());
        }
        assert(sb.cursor_ok());
        assert(sb.qlen() == pe.qlen());
        assert forall|j: int| 0 <= j < 8 && j != sb.current
                && #[trigger] sb.q@[j] != -1
            implies 0 <= sb.q@[j] < 8 && sb.proc_stat@[sb.q@[j] as int] == 1
                && sb.procs@[sb.q@[j] as int].state == pcbs::ST_READY
        by {
            assert(pe.q@[j] != -1);
            let v = pe.q@[j] as int;
            assert(pe.procs@[v].state == pcbs::ST_READY);
            if v == cur {
                assert(pe.procs@[cur].state == pcbs::ST_RUNNING);
                assert(false);
            }
            assert(sb.procs@[v].state == pe.procs@[v].state);
        }
        assert forall|i: int| 0 <= i < 8 && #[trigger] sb.proc_stat@[i] == 1
            implies sb.procs@[i].state != pcbs::ST_RUNNING
        by {
            if i != cur && sb.procs@[i].state == pcbs::ST_RUNNING {
                assert(pe.procs@[i].state == pcbs::ST_RUNNING);
                assert(pe.q@[pe.current as int] == i);
            }
        }
        assert(sb.occupied(sb.current as int));
    }

    // Identity invariants of the post-death state.
    assert(sb.init_ok()) by {
        assert(sb.proc_stat@[0] == 1);
        if waiting && p == 0 {
            assert(sb.procs@[0].pid == mid[0].pid && sb.procs@[0].ppid == mid[0].ppid);
            assert(sb.procs@[0].state == pcbs::ST_READY);
        } else {
            assert(sb.procs@[0] == mid[0]);
        }
    }
    assert(sb.parent_ok()) by {
        assert forall|i: int| 0 < i < 8 && #[trigger] sb.proc_stat@[i] == 1
            implies exists|j: int| 0 <= j < 8 && #[trigger] sb.proc_stat@[j] == 1
                && sb.procs@[j].pid == sb.procs@[i].ppid
        by {
            assert(pe.proc_stat@[i] == 1);
            if i != cur && pe.procs@[i].ppid == pe.procs@[cur].pid {
                assert(sb.procs@[i].ppid == pcbs::PID_INIT) by {
                    if waiting && i == p {
                        assert(sb.procs@[i].ppid == mid[i].ppid);
                    } else {
                        assert(sb.procs@[i] == mid[i]);
                    }
                }
                assert(sb.proc_stat@[0] == 1 && sb.procs@[0].pid == pcbs::PID_INIT);
            } else {
                assert(sb.procs@[i].ppid == pe.procs@[i].ppid) by {
                    if i == cur {
                    } else if waiting && i == p {
                        assert(sb.procs@[i].ppid == mid[i].ppid);
                    } else {
                        assert(sb.procs@[i] == mid[i]);
                    }
                }
                let j = choose|j: int| 0 <= j < 8
                    && #[trigger] pe.proc_stat@[j] == 1
                    && pe.procs@[j].pid == pe.procs@[i].ppid;
                assert(j != cur) by {
                    if j == cur {
                        assert(pe.procs@[i].ppid == pe.procs@[cur].pid);
                    }
                }
                assert(sb.proc_stat@[j] == 1);
                assert(sb.procs@[j].pid == pe.procs@[j].pid);
            }
        }
    }
    assert(sb.no_self_parent()) by {
        assert forall|i: int| 0 < i < 8 && #[trigger] sb.proc_stat@[i] == 1
            implies sb.procs@[i].ppid != sb.procs@[i].pid
        by {
            assert(pe.proc_stat@[i] == 1);
            assert(sb.procs@[i].pid == pe.procs@[i].pid);
            if i != cur && pe.procs@[i].ppid == pe.procs@[cur].pid {
                assert(sb.procs@[i].ppid == pcbs::PID_INIT) by {
                    if waiting && i == p {
                        assert(sb.procs@[i].ppid == mid[i].ppid);
                    } else {
                        assert(sb.procs@[i] == mid[i]);
                    }
                }
                assert(pe.procs@[i].pid != pcbs::PID_INIT) by {
                    assert(pe.procs@[0].pid == pcbs::PID_INIT);
                    assert(pe.proc_stat@[0] == 1);
                }
            } else {
                assert(sb.procs@[i].ppid == pe.procs@[i].ppid) by {
                    if i == cur {
                    } else if waiting && i == p {
                        assert(sb.procs@[i].ppid == mid[i].ppid);
                    } else {
                        assert(sb.procs@[i] == mid[i]);
                    }
                }
            }
        }
    }
    assert(sb.procs@[cur].state == (if waiting {
        pe.procs@[cur].state
    } else {
        pcbs::ST_ZOMBIE
    })) by {
        if waiting {
            assert(sb.procs@[cur] == mid[cur]);
        }
    }
    scheduler::lemma_q_next_occupied(sb);
}

/// Recording the exit status changes no identity, scheduling or
/// counting fact: the state at the death call inherits the whole of
/// the entry state's invariant, and the dying process is a valid,
/// parented, non-init process.
#[verifier::rlimit(100)]
proof fn lemma_exit_prep(pre: Scheduler, pe: Scheduler, cur: int)
    requires
        pre.q_inv(),
        pre.in_use <= 7,
        pre.pids_unique(),
        pre.children_ok(),
        pre.init_ok(),
        pre.zombies_childless(),
        pre.parent_ok(),
        pre.no_self_parent(),
        pre.dispatched(),
        cur == pre.cur_slot(),
        pre.procs@[cur].pid != pcbs::PID_INIT,
        pe.proc_stat@ == pre.proc_stat@,
        pe.q@ == pre.q@,
        pe.current == pre.current,
        pe.sched_ptr == pre.sched_ptr,
        pe.in_use == pre.in_use,
        pe.procs@.len() == 8,
        forall|i: int| 0 <= i < 8 && i != cur
            ==> #[trigger] pe.procs@[i] == pre.procs@[i],
        pe.procs@[cur] == (Pcb { exitstatus: pe.procs@[cur].exitstatus, ..pre.procs@[cur] }),
    ensures
        pe.q_inv(),
        pe.pids_unique(),
        pe.children_ok(),
        pe.init_ok(),
        pe.zombies_childless(),
        pe.parent_ok(),
        pe.no_self_parent(),
        pe.dispatched(),
        pe.cur_slot() == cur,
        0 <= cur < 8,
        cur != 0,
        pe.live(cur),
        pe.procs@[cur].pid != pe.procs@[cur].ppid,
        pe.find_parent(cur) == pre.find_parent(cur),
        pe.q@[pe.sched_ptr as int] == -1,
        pe.qlen() == pre.qlen(),
        pe.count_children(cur) == pre.count_children(cur),
        pe.count_children(0) == pre.count_children(0),
        exists|j: int| 0 <= j < 8 && #[trigger] pe.proc_stat@[j] == 1
            && pe.procs@[j].pid == pe.procs@[cur].ppid,
        pre.procs@[0].ppid != pre.procs@[cur].pid,
        forall|i: int| 0 <= i < 8
            ==> #[trigger] pe.procs@[i].cxt == pre.procs@[i].cxt
                && pe.procs@[i].stack == pre.procs@[i].stack,
{
    assert forall|i: int| 0 <= i < 8
        implies #[trigger] pe.procs@[i].state == pre.procs@[i].state
            && pe.procs@[i].ticks == pre.procs@[i].ticks
            && pe.procs@[i].pid == pre.procs@[i].pid
            && pe.procs@[i].ppid == pre.procs@[i].ppid
            && pe.procs@[i].children == pre.procs@[i].children
            && pe.procs@[i].spot == pre.procs@[i].spot
            && pe.procs@[i].stack == pre.procs@[i].stack
            && pe.procs@[i].cxt == pre.procs@[i].cxt
    by {
        if i != cur {
            assert(pe.procs@[i] == pre.procs@[i]);
        }
    }
    assert(pe.wf());
    assert(pe.nodup());
    assert forall|t: int| 0 <= t < 8
        implies (pe.occupied(#[trigger] pe.cell_back(t)) <==> t < pe.qlen())
    by {
        assert(pe.cell_back(t) == pre.cell_back(t));
        assert(pre.occupied(pre.cell_back(t)) <==> t < pre.qlen());
    }
    assert(pe.cursor_ok());
    assert(pe.states_ok());
    assert(pe.running_only_current());
    assert(pe.ticks_ok());
    scheduler::lemma_identity_preserved(pre, pe);
    assert(cur != 0) by {
        assert(pre.procs@[0].pid == pcbs::PID_INIT);
    }
    scheduler::lemma_find_parent_agree(
        pe.proc_stat@, pe.procs@, pre.proc_stat@, pre.procs@,
        pre.procs@[cur].ppid, 8,
    );
    lemma_count_agree(
        child_pred(pre.proc_stat@, pre.procs@, cur),
        child_pred(pe.proc_stat@, pe.procs@, cur),
        8,
    );
    lemma_count_agree(
        child_pred(pre.proc_stat@, pre.procs@, 0),
        child_pred(pe.proc_stat@, pe.procs@, 0),
        8,
    );
    scheduler::lemma_qlen_le_live(pe);
    assert(pe.cell_back(7) == pe.sched_ptr as int);
    assert(!pe.occupied(pe.sched_ptr as int));
}

/// Field accounting across the whole exit path: entry state `pre`,
/// status-recorded state `pe`, post-death state `sb` and redispatched
/// state `s2`. Restates where every identity field ended up, over the
/// entry state.
#[verifier::rlimit(100)]
proof fn lemma_exit_fields(
    pre: Scheduler, pe: Scheduler, sb: Scheduler, s2: Scheduler, cur: int, p: int,
)
    requires
        pre.procs@.len() == 8,
        pe.procs@.len() == 8,
        sb.procs@.len() == 8,
        s2.procs@.len() == 8,
        pre.proc_stat@.len() == 8,
        pe.proc_stat@ == pre.proc_stat@,
        0 <= cur < 8,
        0 <= p < 8,
        p != cur,
        cur != 0,
        pre.proc_stat@[cur] == 1,
        pre.proc_stat@[p] == 1,
        pre.proc_stat@[0] == 1,
        pre.procs@[0].ppid != pre.procs@[cur].pid,
        pre.procs@[p].pid == pre.procs@[cur].ppid,
        pre.procs@[cur].state == pcbs::ST_RUNNING,
        pre.children_ok(),
        forall|i: int| 0 <= i < 8 && i != cur
            ==> #[trigger] pe.procs@[i] == pre.procs@[i],
        pe.procs@[cur].state == pre.procs@[cur].state,
        pe.procs@[cur].pid == pre.procs@[cur].pid,
        pe.procs@[cur].ppid == pre.procs@[cur].ppid,
        pe.procs@[cur].children == pre.procs@[cur].children,
        pe.procs@[cur].cxt == pre.procs@[cur].cxt,
        pe.procs@[cur].stack == pre.procs@[cur].stack,
        pe.count_children(cur) == pre.count_children(cur),
        pe.count_children(0) == pre.count_children(0),
        ({
            let mid = pe.bite_mid(cur);
            let waiting = pe.procs@[p].state == pcbs::ST_WAITING;
            if waiting {
                &&& sb.procs@ == mid.update(p, Pcb {
                        state: pcbs::ST_READY,
                        children: (mid[p].children - 1) as u16,
                        ..mid[p]
                    })
                &&& sb.proc_stat@ == pe.proc_stat@.update(cur, 0u8)
            } else {
                &&& sb.procs@ == mid.update(cur, Pcb { state: pcbs::ST_ZOMBIE, ..mid[cur] })
                &&& sb.proc_stat@ == pe.proc_stat@
            }
        }),
        s2.proc_stat@ == sb.proc_stat@,
        0 <= s2.cur_slot() < 8,
        s2.procs@ == sb.procs@.update(s2.cur_slot(), Pcb {
            state: pcbs::ST_RUNNING,
            ticks: crate::scheduler::QUANTUM_STD,
            ..sb.procs@[s2.cur_slot()]
        }),
        s2.cur_slot() != cur,
        sb.proc_stat@[s2.cur_slot()] == 1,
        pe.procs@[p].state == pcbs::ST_WAITING ==> s2.proc_stat@[cur] == 0,
    ensures
        ({
            let kch = pre.count_children(cur);
            let waiting = pe.procs@[p].state == pcbs::ST_WAITING;
            &&& (forall|i: int| 0 <= i < 8 && i != cur && pre.proc_stat@[i] == 1
                    && #[trigger] pre.procs@[i].ppid == pre.procs@[cur].pid
                ==> s2.procs@[i].ppid == pcbs::PID_INIT)
            &&& s2.procs@[0].children == pre.procs@[0].children + kch
                - (if waiting && p == 0 { 1int } else { 0int })
            &&& (waiting ==> {
                &&& s2.procs@[cur].state != pcbs::ST_ZOMBIE
                &&& (p != 0 ==> s2.procs@[p].children == pre.procs@[p].children - 1)
                &&& (s2.procs@[p].state == pcbs::ST_READY
                    || (s2.cur_slot() == p && s2.procs@[p].state == pcbs::ST_RUNNING))
            })
            &&& (!waiting ==> {
                &&& s2.procs@[cur].state == pcbs::ST_ZOMBIE
                &&& s2.procs@[cur].pid == pre.procs@[cur].pid
                &&& s2.procs@[cur].ppid == pre.procs@[cur].ppid
                &&& s2.procs@[cur].children == 0
                &&& s2.procs@[cur].exitstatus == pe.procs@[cur].exitstatus
            })
            &&& (forall|i: int| 0 <= i < 8 && #[trigger] s2.proc_stat@[i] == 0
                ==> s2.procs@[i].state != pcbs::ST_ZOMBIE)
                <== (forall|i: int| 0 <= i < 8 && #[trigger] pe.proc_stat@[i] == 0
                    ==> pe.procs@[i].state != pcbs::ST_ZOMBIE)
            &&& (forall|i: int| 0 <= i < 8
                ==> #[trigger] s2.procs@[i].cxt == pe.procs@[i].cxt
                    && s2.procs@[i].stack == pe.procs@[i].stack
                    && s2.procs@[i].pid == pe.procs@[i].pid)
        }),
{
    let mid = pe.bite_mid(cur);
    let waiting = pe.procs@[p].state == pcbs::ST_WAITING;
    let kch = pe.count_children(cur);
    let sel = s2.cur_slot();
    lemma_count_bounds(child_pred(pe.proc_stat@, pe.procs@, cur), 8);
    lemma_count_bounds(child_pred(pe.proc_stat@, pe.procs@, 0), 8);
    assert(pe.procs@[0].children == pe.count_children(0)) by {
        assert(pre.proc_stat@[0] == 1);
        assert(pre.procs@[0].children == pre.count_children(0));
        assert(pe.procs@[0] == pre.procs@[0]);
    }
    assert forall|i: int| 0 <= i < 8
        implies #[trigger] s2.procs@[i].cxt == pe.procs@[i].cxt
            && s2.procs@[i].stack == pe.procs@[i].stack
            && s2.procs@[i].pid == pe.procs@[i].pid
    by {
        assert(s2.procs@[i].cxt == sb.procs@[i].cxt
            && s2.procs@[i].stack == sb.procs@[i].stack
            && s2.procs@[i].pid == sb.procs@[i].pid);
        assert(mid[i].cxt == pe.procs@[i].cxt);
    }
    assert forall|i: int| 0 <= i < 8 && i != cur && pre.proc_stat@[i] == 1
            && #[trigger] pre.procs@[i].ppid == pre.procs@[cur].pid
        implies s2.procs@[i].ppid == pcbs::PID_INIT
    by {
        assert(s2.procs@[i].ppid == sb.procs@[i].ppid);
        if waiting && i == p {
            assert(sb.procs@[i].ppid == mid[i].ppid);
        } else {
            assert(sb.procs@[i] == mid[i]);
        }
    }
    assert(s2.procs@[0].children == sb.procs@[0].children);
    assert(sb.procs@[0].children == pre.procs@[0].children + kch
        - (if waiting && p == 0 { 1int } else { 0int })) by {
        if waiting && p == 0 {
            lemma_count_ge_one(child_pred(pre.proc_stat@, pre.procs@, 0), 8, cur);
            assert(pre.procs@[0].children == pre.count_children(0));
            assert(sb.procs@[0].children == (mid[0].children - 1) as u16);
        } else {
            assert(sb.procs@[0] == mid[0]);
        }
    }
    if waiting {
        assert(s2.procs@[cur].state == sb.procs@[cur].state);
        assert(sb.procs@[cur].state == mid[cur].state);
        assert(mid[cur].state == pe.procs@[cur].state);
        assert(s2.procs@[cur].state == pcbs::ST_RUNNING);
        if p != 0 {
            assert(s2.procs@[p].children == sb.procs@[p].children
                || (sel == p && s2.procs@[p].children == sb.procs@[p].children));
            assert(sb.procs@[p].children == (mid[p].children - 1) as u16);
            assert(mid[p].children == pre.procs@[p].children) by {
                assert(mid[p].children == pe.procs@[p].children);
            }
            assert(pre.proc_stat@[p] == 1);
            assert(pre.procs@[p].children == pre.count_children(p));
            lemma_count_ge_one(child_pred(pre.proc_stat@, pre.procs@, p), 8, cur);
        }
        assert(sb.procs@[p].state == pcbs::ST_READY);
        if sel == p {
            assert(s2.procs@[p].state == pcbs::ST_RUNNING);
        } else {
            assert(s2.procs@[p].state == pcbs::ST_READY);
        }
    } else {
        assert(s2.procs@[cur] == sb.procs@[cur]);
        assert(sb.procs@[cur].state == pcbs::ST_ZOMBIE);
        assert(sb.procs@[cur].children == (pe.procs@[cur].children - kch) as u16) by {
            assert(sb.procs@[cur].children == mid[cur].children);
        }
        assert(pe.procs@[cur].children == pre.procs@[cur].children);
        assert(pre.procs@[cur].children == pre.count_children(cur));
        assert(sb.procs@[cur].children == 0);
    }
    if forall|i: int| 0 <= i < 8 && #[trigger] pe.proc_stat@[i] == 0
        ==> pe.procs@[i].state != pcbs::ST_ZOMBIE {
        assert forall|i: int| 0 <= i < 8 && #[trigger] s2.proc_stat@[i] == 0
            implies s2.procs@[i].state != pcbs::ST_ZOMBIE
        by {
            assert(s2.procs@[i].state == sb.procs@[i].state);
            if i == cur {
                if waiting {
                    assert(sb.procs@[cur].state == pe.procs@[cur].state);
                }
            } else {
                assert(sb.proc_stat@[i] == pe.proc_stat@[i]);
                if waiting && i == p {
                    assert(sb.procs@[p].state == pcbs::ST_READY);
                } else {
                    assert(sb.procs@[i] == mid[i]);
                    assert(sb.procs@[i].state == pe.procs@[i].state);
                }
            }
        }
    }
}

/// Assembles the kernel invariant after an exit: `ke` the kernel
/// with the status recorded, `sb` the scheduler after death handling
/// and `kf` the kernel after the redispatch.
#[verifier::rlimit(100)]
proof fn lemma_exit_finish(
    ke: Kernel, kf: Kernel, sb: Scheduler, cur: int, p: int,
)
    requires
        ke.mem_inv(),
        ke.clock.wf(),
        ke.cio.wf(),
        ke.interrupt.wf(),
        ke.sched.len_ok(),
        ke.sched.in_use <= 7,
        0 <= cur < 8,
        0 <= p < 8,
        ke.sched.live(p),
        p != cur,
        cur != 0,
        sb.current == ke.sched.current,
        sb.sched_ptr < 8,
        sb.procs@.len() == 8,
        sb.proc_stat@.len() == 8,
        sb.q@.len() == 8,
        ({
            let pe = ke.sched;
            if pe.procs@[p].state == pcbs::ST_WAITING {
                &&& sb.proc_stat@ == pe.proc_stat@.update(cur, 0u8)
                &&& sb.in_use == pe.in_use - 1
                &&& kf.pool.words() == ke.pool.words().update(
                    ke.pool.word_at(pe.procs@[p].cxt) + CXT_RAX as int,
                    pe.procs@[cur].pid as u64,
                )
            } else {
                &&& sb.proc_stat@ == pe.proc_stat@
                &&& sb.in_use == pe.in_use
                &&& kf.pool.words() == ke.pool.words()
            }
        }),
        kf.pool.spec_base() == ke.pool.spec_base(),
        kf.pool.spec_exit_point() == ke.pool.spec_exit_point(),
        kf.pool.words().len() == ke.pool.words().len(),
        kf.pool.wf(),
        // the post-death state is fit for dispatch
        sb.nodup(),
        sb.q_shape(),
        sb.cursor_ok(),
        sb.occupied(sb.current as int),
        sb.qlen() >= 2,
        forall|i: int| 0 <= i < 8
            ==> #[trigger] sb.proc_stat@[i] == 0 || sb.proc_stat@[i] == 1,
        forall|i: int| 0 <= i < 8 && #[trigger] sb.proc_stat@[i] == 1
            ==> sb.procs@[i].spot == i,
        sb.in_use == sb.count_live(),
        forall|j: int| 0 <= j < 8 && j != sb.current && #[trigger] sb.q@[j] != -1
            ==> 0 <= sb.q@[j] < 8 && sb.proc_stat@[sb.q@[j] as int] == 1
                && sb.procs@[sb.q@[j] as int].state == pcbs::ST_READY,
        forall|i: int| 0 <= i < 8 && #[trigger] sb.proc_stat@[i] == 1
            ==> sb.procs@[i].state != pcbs::ST_RUNNING,
        sb.init_ok(),
        sb.parent_ok(),
        sb.no_self_parent(),
        sb.pids_unique(),
        sb.children_ok(),
        sb.zombies_childless(),
        // the redispatch
        kf.sched.proc_stat@ == sb.proc_stat@,
        kf.sched.in_use == sb.in_use,
        kf.sched.sched_ptr == sb.sched_ptr,
        kf.sched.q@ == sb.q@.update(sb.current as int, -1i8),
        kf.sched.current == wrap8(sb.current + 1),
        0 <= sb.q@[wrap8(sb.current + 1)] < 8,
        sb.q@[wrap8(sb.current + 1)] != -1,
        kf.sched.procs@ == sb.procs@.update(
            sb.q@[wrap8(sb.current + 1)] as int,
            Pcb {
                state: pcbs::ST_RUNNING,
                ticks: crate::scheduler::QUANTUM_STD,
                ..sb.procs@[sb.q@[wrap8(sb.current + 1)] as int]
            },
        ),
        kf.pids == ke.pids,
        kf.clock == ke.clock,
        kf.cio == ke.cio,
        kf.interrupt == ke.interrupt,
        kf.halted == ke.halted,
        // field accounting already established for the final state
        forall|i: int| 0 <= i < 8 && #[trigger] kf.sched.proc_stat@[i] == 0
            ==> kf.sched.procs@[i].state != pcbs::ST_ZOMBIE,
        forall|i: int| 0 <= i < 8
            ==> #[trigger] kf.sched.procs@[i].cxt == ke.sched.procs@[i].cxt,
        forall|i: int| 0 <= i < 8
            ==> #[trigger] kf.sched.procs@[i].stack == ke.sched.procs@[i].stack,
        forall|i: int| 0 <= i < 8
            ==> #[trigger] kf.sched.procs@[i].pid == ke.sched.procs@[i].pid,
    ensures
        kf.inv(),
        kf.dispatched(),
        kf.cur_slot() == sb.q@[wrap8(sb.current + 1)] as int,
        kf.sched.qlen() == sb.qlen() - 1,
        ke.sched.procs@[p].state == pcbs::ST_WAITING
            ==> kf.cxt_field(p, CXT_RAX as int) == ke.sched.procs@[cur].pid,
{
    let pe = ke.sched;
    let s2 = kf.sched;
    let waiting = pe.procs@[p].state == pcbs::ST_WAITING;
    scheduler::lemma_q_dispatch(sb, s2);
    scheduler::lemma_identity_preserved(sb, s2);
    if waiting {
        assert(pe.proc_stat@[p] == 1);
        lemma_cxt_write_preserved(
            ke, kf, p, CXT_RAX as int, pe.procs@[cur].pid as u64,
        );
        assert(kf.cxt_field(p, CXT_RAX as int) == pe.procs@[cur].pid as u64);
    } else {
        lemma_kernel_frame(ke, kf);
    }
    assert(kf.inv());
}

/// What the exit call does. The caller's children, zombies included,
/// are reparented to init, whose count takes them in. If the caller's
/// parent was parked in wait, the handoff is synchronous: the parent
/// gets the caller's pid in its saved return register and is resumed,
/// the slot is freed at once, and no Zombie state is ever observed.
/// Otherwise the caller stays on record as a childless Zombie holding
/// its exit status. Either way a replacement process is dispatched.
pub open spec fn spec_exit_effect(k0: Kernel, k1: Kernel) -> bool {
    &&& k1.pids == k0.pids
    &&& k1.clock == k0.clock
    &&& k1.cio == k0.cio
    &&& k1.halted == k0.halted
    &&& ({
            let pre = k0.sched;
            let cur = pre.cur_slot();
            let kch = pre.count_children(cur);
            let p = pre.find_parent(cur);
            let waiting = pre.procs@[p].state == pcbs::ST_WAITING;
            &&& 0 <= p < 8
            &&& pre.live(p)
            &&& pre.procs@[p].pid == pre.procs@[cur].ppid
            &&& p != cur
            // Children of the dying process, zombies included, now
            // name init as their parent.
            &&& (forall|i: int| 0 <= i < 8 && i != cur && pre.live(i)
                    && #[trigger] pre.procs@[i].ppid == pre.procs@[cur].pid
                ==> k1.sched.procs@[i].ppid == pcbs::PID_INIT)
            &&& k1.sched.procs@[0].children == pre.procs@[0].children + kch
                - (if waiting && p == 0 { 1int } else { 0int })
            &&& (waiting ==> {
                // Synchronous handoff: the parent gets the pid, the
                // slot is reclaimed, and no Zombie is ever observed.
                &&& k1.sched.proc_stat@[cur] == 0
                &&& k1.sched.procs@[cur].state != pcbs::ST_ZOMBIE
                &&& k1.sched.in_use == pre.in_use - 1
                &&& k1.cxt_field(p, CXT_RAX as int) == pre.procs@[cur].pid
                &&& (p != 0 ==> k1.sched.procs@[p].children
                    == pre.procs@[p].children - 1)
                &&& (k1.sched.procs@[p].state == pcbs::ST_READY
                    || (k1.cur_slot() == p
                        && k1.sched.procs@[p].state == pcbs::ST_RUNNING))
                &&& k1.sched.qlen() == pre.qlen()
            })
            &&& (!waiting ==> {
                // The caller stays on record as a Zombie until its
                // parent calls wait.
                &&& k1.sched.proc_stat@[cur] == 1
                &&& k1.sched.procs@[cur].state == pcbs::ST_ZOMBIE
                &&& k1.sched.procs@[cur].pid == pre.procs@[cur].pid
                &&& k1.sched.procs@[cur].ppid == pre.procs@[cur].ppid
                &&& k1.sched.procs@[cur].children == 0
                &&& k1.sched.procs@[cur].exitstatus
                    == k0.cxt_field(cur, CXT_RDI as int) & 0xffffffff
                &&& k1.sched.in_use == pre.in_use
                &&& k1.sched.qlen() == pre.qlen() - 1
                &&& k1.cur_slot() == pre.q@[wrap8(pre.current + 1)] as int
                &&& k1.pool.words() == k0.pool.words()
            })
    })
}

/// Terminates the calling process: records its exit status from the
/// argument register, hands the process to death handling (children
/// are reparented to init; a Waiting parent is woken synchronously
/// with the caller's pid in its return register, otherwise the caller
/// becomes a Zombie), and immediately dispatches a replacement. Never
/// returns to the caller.
#[verifier::rlimit(100)]
#[verifier::spinoff_prover]
pub fn _sys_exit(k: &mut Kernel)
    requires
        old(k).inv(),
        old(k).dispatched(),
        old(k).sched.procs@[old(k).cur_slot()].pid != pcbs::PID_INIT,
        ({
            let pre = old(k).sched;
            pre.procs@[pre.find_parent(pre.cur_slot())].state == pcbs::ST_WAITING
                || pre.qlen() >= 2
        }),
    ensures
        final(k).inv(),
        final(k).dispatched(),
        spec_exit_effect(*old(k), *final(k)),
{
    let curr = k.sched.get_curr();
    let ghost cur = k.cur_slot();
    let ghost pre = old(k).sched;
    let status = read_curr_rdi(k);
    proof {
        assert(status & 0xffffffff < 0x100000000) by (bit_vector);
    }
    let p0 = k.sched.get_pcb(curr);
    k.sched.procs.set(curr, Pcb { exitstatus: (status & 0xffffffff) as u32, ..p0 });
    let ghost pe = k.sched;
    let ghost ke = *k;
    proof {
        lemma_exit_prep(pre, pe, cur);
        assert(ke.mem_inv());
    }
    k.sched.bite(&mut k.pool, curr as i8);
    let ghost sb = k.sched;
    let ghost p = pre.find_parent(cur);
    let ghost waiting = pre.procs@[p].state == pcbs::ST_WAITING;
    proof {
        lemma_exit_bite_state(pe, sb, cur, p);
    }
    k.sched._dispatch();
    proof {
        let s2 = k.sched;
        let sel = sb.q@[wrap8(sb.current + 1)] as int;
        assert(sel != cur) by {
            if waiting {
                assert(sb.proc_stat@[cur] == 0);
            } else {
                assert(sb.procs@[cur].state == pcbs::ST_ZOMBIE);
                assert(sb.procs@[sel].state == pcbs::ST_READY);
            }
        }
        assert(sb.proc_stat@[sel] == 1);
        lemma_exit_fields(pre, pe, sb, s2, cur, p);
        lemma_exit_finish(ke, *k, sb, cur, p);
    }
}

/// After a fork, the scheduler invariant holds again: the parent took
/// one more child on its count, the fresh child slot is admitted with
/// a brand-new pid, Ready, and queued at the tail. `pre` is the state
/// at the call, `sa` the state after admission, `se` after enqueue.
#[verifier::rlimit(100)]
proof fn lemma_fork_sched(
    pre: Scheduler, sa: Scheduler, se: Scheduler,
    cur: int, c: int, cxt: u64, stk: u64, pid: u16,
)
    requires
        pre.q_inv(),
        pre.in_use <= 7,
        pre.pids_unique(),
        pre.children_ok(),
        pre.init_ok(),
        pre.zombies_childless(),
        pre.parent_ok(),
        pre.no_self_parent(),
        forall|i: int| 0 <= i < 8 && #[trigger] pre.proc_stat@[i] == 0
            ==> pre.procs@[i].state != pcbs::ST_ZOMBIE,
        pre.dispatched(),
        cur == pre.cur_slot(),
        pre.in_use < 7,
        pre.procs@[cur].children < 0xffff,
        0 <= c < 8,
        c != 0,
        c != cur,
        !pre.live(c),
        pcbs::PID_FIRST <= pid,
        forall|i: int| 0 <= i < 8 && #[trigger] pre.proc_stat@[i] == 1
            ==> pre.procs@[i].pid < pid,
        forall|i: int| 0 <= i < 8 && #[trigger] pre.proc_stat@[i] == 1
            ==> exists|j: int| 0 <= j < 8 && #[trigger] pre.proc_stat@[j] == 1
                && pre.procs@[j].pid == pre.procs@[i].ppid,
        sa.proc_stat@ == pre.proc_stat@.update(c, 1u8),
        sa.procs@ == pre.procs@.update(cur, Pcb {
            children: (pre.procs@[cur].children + 1) as u16,
            ..pre.procs@[cur]
        }).update(c, Pcb {
            cxt,
            stack: stk,
            event: 0,
            exitstatus: 0,
            pid,
            ppid: pre.procs@[cur].pid,
            children: 0,
            state: pcbs::ST_READY,
            ticks: pre.procs@[c].ticks,
            spot: c as i8,
        }),
        sa.in_use == pre.in_use + 1,
        sa.q@ == pre.q@,
        sa.current == pre.current,
        sa.sched_ptr == pre.sched_ptr,
        sa.wf(),
        se.proc_stat@ == sa.proc_stat@,
        se.in_use == sa.in_use,
        se.current == sa.current,
        se.q@ == sa.q@.update(sa.sched_ptr as int, c as i8),
        se.sched_ptr == wrap8(sa.sched_ptr + 1),
        se.procs@ == sa.procs@,
    ensures
        se.q_inv(),
        se.dispatched(),
        se.cur_slot() == cur,
        se.qlen() == pre.qlen() + 1,
        se.procs@[cur].children == pre.procs@[cur].children + 1,
{
    // The parent taking one more child leaves scheduling untouched.
    let sc = Scheduler { procs: sa.procs, ..pre };
    assert(sc.procs@ == sa.procs@);
    assert forall|i: int| 0 <= i < 8 && i != cur && i != c
        implies #[trigger] sa.procs@[i] == pre.procs@[i]
    by {}
    assert(sa.procs@[cur].state == pre.procs@[cur].state
        && sa.procs@[cur].ticks == pre.procs@[cur].ticks
        && sa.procs@[cur].pid == pre.procs@[cur].pid
        && sa.procs@[cur].ppid == pre.procs@[cur].ppid
        && sa.procs@[cur].spot == pre.procs@[cur].spot);
    // Admission and enqueue restore the queue invariant.
    assert(sc.wf()) by {
        assert forall|i: int| 0 <= i < 8 && #[trigger] sc.proc_stat@[i] == 1
            implies sc.procs@[i].spot == i
        by {
            assert(i != c);
        }
    }
    assert(sc.nodup());
    assert forall|t: int| 0 <= t < 8
        implies (sc.occupied(#[trigger] sc.cell_back(t)) <==> t < sc.qlen())
    by {
        assert(sc.cell_back(t) == pre.cell_back(t));
        assert(pre.occupied(pre.cell_back(t)) <==> t < pre.qlen());
    }
    assert(sc.cursor_ok());
    assert(sc.states_ok()) by {
        assert forall|j: int| 0 <= j < 8 && j != sc.current && #[trigger] sc.q@[j] != -1
            implies sc.procs@[sc.q@[j] as int].state == pcbs::ST_READY
        by {
            assert(pre.q@[j] != -1);
            let v = pre.q@[j] as int;
            assert(v != c);
            assert(sc.procs@[v].state == pre.procs@[v].state);
        }
        assert(sc.q@[sc.current as int] == cur as i8);
    }
    assert(sc.running_only_current()) by {
        assert forall|i: int| 0 <= i < 8 && #[trigger] sc.proc_stat@[i] == 1
                && #[trigger] sc.procs@[i].state == pcbs::ST_RUNNING
            implies sc.occupied(sc.current as int) && sc.q@[sc.current as int] == i
        by {
            assert(i != c);
            if i != cur {
                assert(sc.procs@[i] == pre.procs@[i]);
            }
        }
    }
    assert(sc.ticks_ok());
    crate::scheduler::lemma_q_admit(sc, sa, c);
    scheduler::lemma_qlen_le_live(pre);
    assert(sa.qlen() == pre.qlen());
    assert(sa.qlen() <= 7);
    assert forall|j: int| 0 <= j < 8 implies #[trigger] sa.q@[j] != c as i8 by {
        if pre.q@[j] != -1 {
            assert(pre.proc_stat@[pre.q@[j] as int] == 1);
        }
    }
    scheduler::lemma_q_enqueue(sa, se, c);
}

/// After a fork, the identity and accounting invariants hold again:
/// the fresh pid is unique, the child is counted by its parent alone,
/// and every process still has a live parent.
#[verifier::rlimit(100)]
proof fn lemma_fork_identity(
    pre: Scheduler, sa: Scheduler, se: Scheduler,
    cur: int, c: int, cxt: u64, stk: u64, pid: u16,
)
    requires
        pre.q_inv(),
        pre.in_use <= 7,
        pre.pids_unique(),
        pre.children_ok(),
        pre.init_ok(),
        pre.zombies_childless(),
        pre.parent_ok(),
        pre.no_self_parent(),
        forall|i: int| 0 <= i < 8 && #[trigger] pre.proc_stat@[i] == 0
            ==> pre.procs@[i].state != pcbs::ST_ZOMBIE,
        pre.dispatched(),
        cur == pre.cur_slot(),
        pre.in_use < 7,
        pre.procs@[cur].children < 0xffff,
        0 <= c < 8,
        c != 0,
        c != cur,
        !pre.live(c),
        pcbs::PID_FIRST <= pid,
        forall|i: int| 0 <= i < 8 && #[trigger] pre.proc_stat@[i] == 1
            ==> pre.procs@[i].pid < pid,
        forall|i: int| 0 <= i < 8 && #[trigger] pre.proc_stat@[i] == 1
            ==> exists|j: int| 0 <= j < 8 && #[trigger] pre.proc_stat@[j] == 1
                && pre.procs@[j].pid == pre.procs@[i].ppid,
        sa.proc_stat@ == pre.proc_stat@.update(c, 1u8),
        sa.procs@ == pre.procs@.update(cur, Pcb {
            children: (pre.procs@[cur].children + 1) as u16,
            ..pre.procs@[cur]
        }).update(c, Pcb {
            cxt,
            stack: stk,
            event: 0,
            exitstatus: 0,
            pid,
            ppid: pre.procs@[cur].pid,
            children: 0,
            state: pcbs::ST_READY,
            ticks: pre.procs@[c].ticks,
            spot: c as i8,
        }),
        sa.in_use == pre.in_use + 1,
        sa.q@ == pre.q@,
        sa.current == pre.current,
        sa.sched_ptr == pre.sched_ptr,
        sa.wf(),
        se.proc_stat@ == sa.proc_stat@,
        se.in_use == sa.in_use,
        se.current == sa.current,
        se.q@ == sa.q@.update(sa.sched_ptr as int, c as i8),
        se.sched_ptr == wrap8(sa.sched_ptr + 1),
        se.procs@ == sa.procs@,
    ensures
        se.pids_unique(),
        se.children_ok(),
        se.init_ok(),
        se.zombies_childless(),
        se.parent_ok(),
        se.no_self_parent(),
        forall|i: int| 0 <= i < 8 && #[trigger] se.proc_stat@[i] == 0
            ==> se.procs@[i].state != pcbs::ST_ZOMBIE,
{
    assert forall|i: int| 0 <= i < 8 && i != cur && i != c
        implies #[trigger] se.procs@[i] == pre.procs@[i]
    by {}
    assert(se.procs@[cur].state == pre.procs@[cur].state
        && se.procs@[cur].ticks == pre.procs@[cur].ticks
        && se.procs@[cur].pid == pre.procs@[cur].pid
        && se.procs@[cur].ppid == pre.procs@[cur].ppid
        && se.procs@[cur].spot == pre.procs@[cur].spot);
    assert(se.pids_unique()) by {
        assert forall|i: int, j: int|
            0 <= i < 8 && 0 <= j < 8 && i != j
                && #[trigger] se.proc_stat@[i] == 1 && #[trigger] se.proc_stat@[j] == 1
            implies se.procs@[i].pid != se.procs@[j].pid
        by {
            if i != c && j != c {
                assert(pre.proc_stat@[i] == 1 && pre.proc_stat@[j] == 1);
                assert(se.procs@[i].pid == pre.procs@[i].pid);
                assert(se.procs@[j].pid == pre.procs@[j].pid);
            } else if i == c {
                assert(pre.proc_stat@[j] == 1);
                assert(se.procs@[j].pid == pre.procs@[j].pid);
                assert(pre.procs@[j].pid < pid);
            } else {
                assert(pre.proc_stat@[i] == 1);
                assert(se.procs@[i].pid == pre.procs@[i].pid);
                assert(pre.procs@[i].pid < pid);
            }
        }
    }
    assert(se.init_ok()) by {
        assert(se.procs@[0].pid == pre.procs@[0].pid
            && se.procs@[0].ppid == pre.procs@[0].ppid
            && se.procs@[0].state == pre.procs@[0].state) by {
            if cur != 0 {
                assert(se.procs@[0] == pre.procs@[0]);
            }
        }
    }
    assert(se.no_self_parent()) by {
        assert forall|i: int| 0 < i < 8 && #[trigger] se.proc_stat@[i] == 1
            implies se.procs@[i].ppid != se.procs@[i].pid
        by {
            if i == c {
                assert(pre.proc_stat@[cur] == 1);
                assert(pre.procs@[cur].pid < pid);
            } else {
                assert(pre.proc_stat@[i] == 1);
                assert(se.procs@[i].ppid == pre.procs@[i].ppid
                    && se.procs@[i].pid == pre.procs@[i].pid);
            }
        }
    }
    assert(se.zombies_childless()) by {
        assert forall|i: int| 0 <= i < 8 && #[trigger] se.proc_stat@[i] == 1
                && se.procs@[i].state == pcbs::ST_ZOMBIE
            implies se.procs@[i].children == 0
        by {
            assert(i != c);
            assert(i != cur) by {
                assert(pre.procs@[cur].state == pcbs::ST_RUNNING);
                assert(se.procs@[cur].state == pre.procs@[cur].state);
            }
            assert(se.procs@[i] == pre.procs@[i]);
            assert(pre.proc_stat@[i] == 1);
        }
    }
    assert(se.parent_ok()) by {
        assert forall|i: int| 0 < i < 8 && #[trigger] se.proc_stat@[i] == 1
            implies exists|j: int| 0 <= j < 8 && #[trigger] se.proc_stat@[j] == 1
                && se.procs@[j].pid == se.procs@[i].ppid
        by {
            if i == c {
                assert(se.proc_stat@[cur] == 1
                    && se.procs@[cur].pid == se.procs@[c].ppid);
            } else {
                assert(pre.proc_stat@[i] == 1);
                let j = choose|j: int| 0 <= j < 8
                    && #[trigger] pre.proc_stat@[j] == 1
                    && pre.procs@[j].pid == pre.procs@[i].ppid;
                assert(se.proc_stat@[j] == 1);
                assert(se.procs@[j].pid == pre.procs@[j].pid);
                assert(se.procs@[i].ppid == pre.procs@[i].ppid);
            }
        }
    }
    // Every live parent id stays below the fresh pid, so nothing but
    // the parent counts the child.
    assert forall|i: int| 0 <= i < 8 && #[trigger] pre.proc_stat@[i] == 1
        implies pre.procs@[i].ppid < pid
    by {
        let j = choose|j: int| 0 <= j < 8 && #[trigger] pre.proc_stat@[j] == 1
            && pre.procs@[j].pid == pre.procs@[i].ppid;
        assert(pre.procs@[j].pid < pid);
    }
    assert(se.children_ok()) by {
        assert forall|i: int| 0 <= i < 8 && #[trigger] se.proc_stat@[i] == 1
            implies se.procs@[i].children == se.count_children(i)
        by {
            let f2 = child_pred(se.proc_stat@, se.procs@, i);
            if i == c {
                assert forall|u: int| 0 <= u < 8 implies !(#[trigger] f2(u)) by {
                    if f2(u) {
                        assert(u != c);
                        assert(pre.proc_stat@[u] == 1);
                        assert(se.procs@[u].ppid == pre.procs@[u].ppid);
                        assert(pre.procs@[u].ppid < pid);
                        assert(se.procs@[c].pid == pid);
                    }
                }
                lemma_count_none(f2, 8);
            } else {
                let f0 = child_pred(pre.proc_stat@, pre.procs@, i);
                assert forall|u: int| 0 <= u < 8 && u != c
                    implies #[trigger] f2(u) == #[trigger] f0(u)
                by {
                    assert(se.proc_stat@[u] == pre.proc_stat@[u]);
                    if u != cur && u != c {
                        assert(se.procs@[u] == pre.procs@[u]);
                    }
                    assert(se.procs@[i].pid == pre.procs@[i].pid);
                    assert(se.procs@[u].ppid == pre.procs@[u].ppid);
                }
                lemma_count_update(f0, f2, 8, c);
                assert(!f0(c));
                assert(pre.proc_stat@[i] == 1);
                assert(pre.procs@[i].children == pre.count_children(i));
                if i == cur {
                    assert(f2(c)) by {
                        assert(se.procs@[c].ppid == pre.procs@[cur].pid);
                        assert(se.procs@[cur].pid == pre.procs@[cur].pid);
                    }
                    lemma_count_bounds(f0, 8);
                } else {
                    assert(!f2(c)) by {
                        assert(se.procs@[c].ppid == pre.procs@[cur].pid);
                        assert(se.procs@[i].pid == pre.procs@[i].pid);
                        assert(pre.procs@[i].pid != pre.procs@[cur].pid);
                    }
                    assert(se.procs@[i].children == pre.procs@[i].children);
                }
            }
        }
    }
    assert forall|i: int| 0 <= i < 8 && #[trigger] se.proc_stat@[i] == 0
        implies se.procs@[i].state != pcbs::ST_ZOMBIE
    by {
        assert(i != c && i != cur);
        assert(se.procs@[i] == pre.procs@[i]);
        assert(pre.proc_stat@[i] == 0);
    }
}

/// The memory side of a fork: the child's context is well placed in
/// its fresh stack, every other context and saved stack pointer is
/// untouched, and the child's stack is the parent's image with the
/// stack pointer relocated and the return register cleared. `k0` is
/// the kernel at the call, `kc` after the stack copy, `kf` at the
/// end.
#[verifier::rlimit(100)]
#[verifier::spinoff_prover]
proof fn lemma_fork_mem(
    k0: Kernel, kc: Kernel, kf: Kernel, cur: int, c: int, cxt: u64, stk: u64, pid: u16,
)
    requires
        k0.inv(),
        k0.dispatched(),
        cur == k0.cur_slot(),
        k0.pids.curr < u16::MAX,
        pid == k0.pids.curr,
        0 <= c < 8,
        c != cur,
        stk as int == k0.pool.spec_base() as int + 8 * k0.pool.words().len(),
        cxt as int == k0.sched.procs@[cur].cxt as int
            + (stk as int - k0.sched.procs@[cur].stack as int),
        kc.pool.wf(),
        kc.pool.spec_base() == k0.pool.spec_base(),
        kc.pool.spec_exit_point() == k0.pool.spec_exit_point(),
        kc.pool.words().len() == k0.pool.words().len() + 1024,
        kc.pool.valid_stack(stk),
        forall|i: int| 0 <= i < k0.pool.words().len()
            ==> #[trigger] kc.pool.words()[i] == k0.pool.words()[i],
        forall|w: int| 0 <= w < 1024
            ==> #[trigger] kc.pool.words()[kc.pool.word_at(stk) + w]
                == k0.pool.words()[
                    k0.pool.word_at(k0.sched.procs@[cur].stack) + w],
        kf.pool.wf(),
        kf.pool.spec_base() == kc.pool.spec_base(),
        kf.pool.spec_exit_point() == kc.pool.spec_exit_point(),
        kf.pool.words().len() == kc.pool.words().len(),
        kf.pool.words() == kc.pool.words()
            .update(
                kc.pool.word_at(cxt) + CXT_RSP as int,
                (k0.cxt_field(cur, CXT_RSP as int)
                    + (stk - k0.sched.procs@[cur].stack)) as u64,
            )
            .update(kc.pool.word_at(cxt) + CXT_RAX as int, 0u64)
            .update(
                kc.pool.word_at(k0.sched.procs@[cur].cxt) + CXT_RAX as int,
                pid as u64,
            ),
        kf.sched.proc_stat@ == k0.sched.proc_stat@.update(c, 1u8),
        kf.sched.procs@.len() == 8,
        forall|i: int| 0 <= i < 8 && i != c
            ==> #[trigger] kf.sched.procs@[i].cxt == k0.sched.procs@[i].cxt
                && kf.sched.procs@[i].stack == k0.sched.procs@[i].stack
                && kf.sched.procs@[i].pid == k0.sched.procs@[i].pid,
        kf.sched.procs@[c].cxt == cxt,
        kf.sched.procs@[c].stack == stk,
        kf.sched.procs@[c].pid == pid,
        kf.pids.curr == k0.pids.curr + 1,
    ensures
        kf.mem_inv(),
        kf.cxt_field(c, CXT_RSP as int)
            == k0.cxt_field(cur, CXT_RSP as int)
                + (stk - k0.sched.procs@[cur].stack),
        kf.cxt_field(c, CXT_RAX as int) == 0,
        kf.cxt_field(cur, CXT_RAX as int) == pid,
        stk > k0.sched.procs@[cur].stack,
        forall|w: int| 0 <= w < 1024
                && w != k0.pool.word_at(k0.sched.procs@[cur].cxt)
                    - k0.pool.word_at(k0.sched.procs@[cur].stack) + CXT_RSP as int
                && w != k0.pool.word_at(k0.sched.procs@[cur].cxt)
                    - k0.pool.word_at(k0.sched.procs@[cur].stack) + CXT_RAX as int
            ==> kf.pool.words()[#[trigger] (kf.pool.word_at(stk) + w)]
                == k0.pool.words()[
                    k0.pool.word_at(k0.sched.procs@[cur].stack) + w],
{
    let pstk = k0.sched.procs@[cur].stack;
    let pcxt = k0.sched.procs@[cur].cxt;
    assert(k0.sched.proc_stat@[cur] == 1);
    assert(k0.cxt_placed(cur));
    k0.pool.lemma_stack_word(pstk, 0);
    k0.pool.lemma_cxt_word(pcxt, pstk, CXT_RSP as int);
    k0.pool.lemma_cxt_word(pcxt, pstk, CXT_RAX as int);
    let oldlen = k0.pool.words().len() as int;
    assert(stk > pstk);
    // Word indices stay the same across the growing arena.
    assert(kc.pool.word_at(stk) == oldlen);
    assert(kc.pool.cxt_ok(cxt, stk)) by {
        assert(cxt as int - stk as int == pcxt as int - pstk as int);
    }
    kc.pool.lemma_cxt_word(cxt, stk, CXT_RSP as int);
    kc.pool.lemma_cxt_word(cxt, stk, CXT_RAX as int);
    let co = k0.pool.word_at(pcxt) - k0.pool.word_at(pstk);
    assert(kc.pool.word_at(cxt) == kc.pool.word_at(stk) + co);
    assert(k0.pool.word_at(pcxt) + pcbs::CXT_WORDS as int
        <= k0.pool.word_at(pstk) + 1024);
    assert(k0.pool.word_at(pstk) + 1024 <= oldlen);
    // The three written words: two in the child's context, one in the
    // parent's; the regions are disjoint.
    let wrsp = kc.pool.word_at(cxt) + CXT_RSP as int;
    let wrax = kc.pool.word_at(cxt) + CXT_RAX as int;
    let wprax = kc.pool.word_at(pcxt) + CXT_RAX as int;
    assert(kc.pool.word_at(pcxt) == k0.pool.word_at(pcxt));
    assert(wprax < oldlen);
    assert(wrsp >= oldlen && wrax >= oldlen);
    assert(kf.cxt_field(c, CXT_RSP as int)
        == k0.cxt_field(cur, CXT_RSP as int) + (stk - pstk));
    assert(kf.cxt_field(c, CXT_RAX as int) == 0);
    assert(kf.cxt_field(cur, CXT_RAX as int) == pid);

    // Every live process's context and stack facts.
    assert forall|i: int| 0 <= i < 8 && #[trigger] kf.sched.proc_stat@[i] == 1
        implies kf.cxt_placed(i)
            && kf.cxt_field(i, CXT_RSP as int)
                <= kf.sched.procs@[i].stack + crate::stacks::STACK_BYTES
            && kf.sched.procs@[i].pid < kf.pids.curr
    by {
        if i == c {
            assert(kf.pool.cxt_ok(cxt, stk)) by {
                assert(cxt as int - stk as int == pcxt as int - pstk as int);
            }
            assert(k0.cxt_field(cur, CXT_RSP as int) <= pstk + 8192);
        } else {
            assert(k0.sched.proc_stat@[i] == 1);
            assert(k0.cxt_placed(i));
            let istk = k0.sched.procs@[i].stack;
            let icxt = k0.sched.procs@[i].cxt;
            k0.pool.lemma_stack_word(istk, 0);
            k0.pool.lemma_cxt_word(icxt, istk, CXT_RSP as int);
            assert(kf.pool.cxt_ok(icxt, istk));
            let wi = k0.pool.word_at(icxt) + CXT_RSP as int;
            assert(wi < oldlen);
            if i != cur {
                assert(istk != pstk);
                k0.pool.lemma_stacks_disjoint(istk, pstk);
            }
            assert(wi != wprax);
            assert(kf.pool.words()[wi] == k0.pool.words()[wi]);
        }
    }
    // Distinct live processes keep distinct stacks: the child's is
    // above every older one.
    assert forall|i: int, j: int|
        0 <= i < 8 && 0 <= j < 8 && i != j
            && #[trigger] kf.sched.proc_stat@[i] == 1
            && #[trigger] kf.sched.proc_stat@[j] == 1
        implies kf.sched.procs@[i].stack != kf.sched.procs@[j].stack
    by {
        if i == c {
            assert(k0.sched.proc_stat@[j] == 1);
            assert(k0.cxt_placed(j));
            assert(k0.sched.procs@[j].stack as int + 8192
                <= k0.pool.spec_base() as int + 8 * oldlen);
        } else if j == c {
            assert(k0.sched.proc_stat@[i] == 1);
            assert(k0.cxt_placed(i));
            assert(k0.sched.procs@[i].stack as int + 8192
                <= k0.pool.spec_base() as int + 8 * oldlen);
        } else {
            assert(k0.sched.proc_stat@[i] == 1 && k0.sched.proc_stat@[j] == 1);
        }
    }
    // The child's stack is the parent's image but for the relocated
    // stack pointer and the cleared return register.
    assert forall|w: int| 0 <= w < 1024
            && w != co + CXT_RSP as int && w != co + CXT_RAX as int
        implies kf.pool.words()[#[trigger] (kf.pool.word_at(stk) + w)]
            == k0.pool.words()[k0.pool.word_at(pstk) + w]
    by {
        assert(kf.pool.word_at(stk) == kc.pool.word_at(stk));
        assert(kf.pool.word_at(stk) + w != wrsp);
        assert(kf.pool.word_at(stk) + w != wrax);
        assert(kf.pool.word_at(stk) + w != wprax);
        assert(kf.pool.words()[kf.pool.word_at(stk) + w]
            == kc.pool.words()[kc.pool.word_at(stk) + w]);
    }
}

/// Assembles the kernel invariant and the recorded effects of a
/// successful fork from the scheduler, identity and memory pieces.
#[verifier::rlimit(100)]
#[verifier::spinoff_prover]
proof fn lemma_fork_post(
    k0: Kernel, kc: Kernel, kf: Kernel, sa: Scheduler,
    cur: int, c: int, cxt: u64, stk: u64, pid: u16,
)
    requires
        k0.inv(),
        k0.dispatched(),
        cur == k0.cur_slot(),
        k0.sched.in_use < 7,
        k0.pids.curr < u16::MAX,
        pid == k0.pids.curr,
        0 <= c < 8,
        c != 0,
        c != cur,
        !k0.sched.live(c),
        k0.sched.procs@[cur].children < 0xffff,
        sa.proc_stat@ == k0.sched.proc_stat@.update(c, 1u8),
        sa.procs@ == k0.sched.procs@.update(cur, Pcb {
            children: (k0.sched.procs@[cur].children + 1) as u16,
            ..k0.sched.procs@[cur]
        }).update(c, Pcb {
            cxt,
            stack: stk,
            event: 0,
            exitstatus: 0,
            pid,
            ppid: k0.sched.procs@[cur].pid,
            children: 0,
            state: pcbs::ST_READY,
            ticks: k0.sched.procs@[c].ticks,
            spot: c as i8,
        }),
        sa.in_use == k0.sched.in_use + 1,
        sa.q@ == k0.sched.q@,
        sa.current == k0.sched.current,
        sa.sched_ptr == k0.sched.sched_ptr,
        sa.wf(),
        kf.sched.proc_stat@ == sa.proc_stat@,
        kf.sched.in_use == sa.in_use,
        kf.sched.current == sa.current,
        kf.sched.q@ == sa.q@.update(sa.sched_ptr as int, c as i8),
        kf.sched.sched_ptr == wrap8(sa.sched_ptr + 1),
        kf.sched.procs@ == sa.procs@,
        stk as int == k0.pool.spec_base() as int + 8 * k0.pool.words().len(),
        cxt as int == k0.sched.procs@[cur].cxt as int
            + (stk as int - k0.sched.procs@[cur].stack as int),
        kc.pool.wf(),
        kc.pool.spec_base() == k0.pool.spec_base(),
        kc.pool.spec_exit_point() == k0.pool.spec_exit_point(),
        kc.pool.words().len() == k0.pool.words().len() + 1024,
        kc.pool.valid_stack(stk),
        forall|i: int| 0 <= i < k0.pool.words().len()
            ==> #[trigger] kc.pool.words()[i] == k0.pool.words()[i],
        forall|w: int| 0 <= w < 1024
            ==> #[trigger] kc.pool.words()[kc.pool.word_at(stk) + w]
                == k0.pool.words()[
                    k0.pool.word_at(k0.sched.procs@[cur].stack) + w],
        kf.pool.wf(),
        kf.pool.spec_base() == kc.pool.spec_base(),
        kf.pool.spec_exit_point() == kc.pool.spec_exit_point(),
        kf.pool.words().len() == kc.pool.words().len(),
        kf.pool.words() == kc.pool.words()
            .update(
                kc.pool.word_at(cxt) + CXT_RSP as int,
                (k0.cxt_field(cur, CXT_RSP as int)
                    + (stk - k0.sched.procs@[cur].stack)) as u64,
            )
            .update(kc.pool.word_at(cxt) + CXT_RAX as int, 0u64)
            .update(
                kc.pool.word_at(k0.sched.procs@[cur].cxt) + CXT_RAX as int,
                pid as u64,
            ),
        kf.pids.curr == k0.pids.curr + 1,
        kf.pids.curr >= pcbs::PID_FIRST,
        kf.clock == k0.clock,
        kf.cio == k0.cio,
        kf.interrupt == k0.interrupt,
    ensures
        kf.inv(),
        kf.dispatched(),
        kf.cur_slot() == cur,
        kf.sched.qlen() == k0.sched.qlen() + 1,
        kf.sched.proc_stat@[c] == 1,
        kf.sched.procs@[c].pid == pid,
        kf.sched.procs@[c].ppid == k0.sched.procs@[cur].pid,
        kf.sched.procs@[c].children == 0,
        kf.sched.procs@[c].state == pcbs::ST_READY,
        kf.sched.procs@[c].stack == stk,
        kf.sched.procs@[c].cxt == cxt,
        kf.sched.procs@[cur].children == k0.sched.procs@[cur].children + 1,
        kf.sched.in_use == k0.sched.in_use + 1,
        kf.cxt_field(cur, CXT_RAX as int) == pid,
        kf.cxt_field(c, CXT_RAX as int) == 0,
        stk > k0.sched.procs@[cur].stack,
        kf.cxt_field(c, CXT_RSP as int)
            == k0.cxt_field(cur, CXT_RSP as int)
                + (stk - k0.sched.procs@[cur].stack),
        forall|w: int| 0 <= w < 1024
                && w != k0.pool.word_at(k0.sched.procs@[cur].cxt)
                    - k0.pool.word_at(k0.sched.procs@[cur].stack) + CXT_RSP as int
                && w != k0.pool.word_at(k0.sched.procs@[cur].cxt)
                    - k0.pool.word_at(k0.sched.procs@[cur].stack) + CXT_RAX as int
            ==> kf.pool.words()[#[trigger] (kf.pool.word_at(stk) + w)]
                == k0.pool.words()[
                    k0.pool.word_at(k0.sched.procs@[cur].stack) + w],
{
    let pre = k0.sched;
    let se = kf.sched;
    assert(pre.procs@[0].pid == pcbs::PID_INIT);
    assert forall|i: int| 0 <= i < 8 && #[trigger] pre.proc_stat@[i] == 1
        implies pre.procs@[i].pid < pid
    by {}
    assert forall|i: int| 0 <= i < 8 && #[trigger] pre.proc_stat@[i] == 1
        implies exists|j: int| 0 <= j < 8 && #[trigger] pre.proc_stat@[j] == 1
            && pre.procs@[j].pid == pre.procs@[i].ppid
    by {
        if i == 0 {
            assert(pre.proc_stat@[0] == 1
                && pre.procs@[0].pid == pre.procs@[0].ppid);
        }
    }
    lemma_fork_sched(pre, sa, se, cur, c, cxt, stk, pid);
    lemma_fork_identity(pre, sa, se, cur, c, cxt, stk, pid);
    lemma_fork_mem(k0, kc, kf, cur, c, cxt, stk, pid);
    assert(kf.inv());
}

/// What the fork call does. With every slot taken, the failure
/// sentinel lands in the caller's return register and nothing else
/// moves. Otherwise a fresh slot is admitted and queued: the child
/// carries a brand-new pid and the caller's pid as parent, the
/// caller's count grows by one, the caller reads the child's pid and
/// the child reads zero, and the child's stack is the caller's image
/// with the saved stack pointer relocated by the distance between the
/// two stacks.
pub open spec fn spec_fork_effect(k0: Kernel, k1: Kernel) -> bool {
    &&& k1.cur_slot() == k0.cur_slot()
    &&& k1.clock == k0.clock
    &&& k1.cio == k0.cio
    &&& k1.halted == k0.halted
    &&& ({
            let pre = k0.sched;
            let cur = pre.cur_slot();
            &&& (pre.in_use >= 7 ==> {
                &&& k1.sched == pre
                &&& k1.pids == k0.pids
                &&& k1.cxt_field(cur, CXT_RAX as int) == SYS_FAILURE
            })
            &&& (pre.in_use < 7 ==> exists|c: int| {
                &&& 1 <= c < 8
                &&& !pre.live(c)
                &&& #[trigger] k1.sched.proc_stat@[c] == 1
                &&& k1.sched.procs@[c].pid == k0.pids.curr
                &&& k1.sched.procs@[c].ppid == pre.procs@[cur].pid
                &&& k1.sched.procs@[c].children == 0
                &&& k1.sched.procs@[c].state == pcbs::ST_READY
                &&& k1.sched.procs@[cur].children
                    == pre.procs@[cur].children + 1
                &&& k1.sched.in_use == pre.in_use + 1
                &&& k1.sched.qlen() == pre.qlen() + 1
                &&& k1.pids.curr == k0.pids.curr + 1
                &&& k1.cxt_field(cur, CXT_RAX as int) == k0.pids.curr
                &&& k1.cxt_field(c, CXT_RAX as int) == 0
                &&& ({
                    let pstk = pre.procs@[cur].stack;
                    let cstk = k1.sched.procs@[c].stack;
                    let delta = cstk - pstk;
                    let co = k0.pool.word_at(pre.procs@[cur].cxt)
                        - k0.pool.word_at(pstk);
                    &&& cstk > pstk
                    &&& k1.sched.procs@[c].cxt == pre.procs@[cur].cxt + delta
                    &&& k1.cxt_field(c, CXT_RSP as int)
                        == k0.cxt_field(cur, CXT_RSP as int) + delta
                    &&& forall|w: int| 0 <= w < 1024
                            && w != co + CXT_RSP as int && w != co + CXT_RAX as int
                        ==> k1.pool.words()[
                                #[trigger] (k1.pool.word_at(cstk) + w)]
                            == k0.pool.words()[k0.pool.word_at(pstk) + w]
                })
            })
    })
}

/// Creates a new process: a copy of the caller. A fresh stack is
/// allocated and the caller's stack image copied into it verbatim;
/// the copied context's saved stack pointer is relocated by the
/// distance between the two stacks, so stack-internal references stay
/// consistent; the child's return register reads zero, the parent's
/// the new child's pid; the child is admitted and queued. With all
/// slots taken the call fails, leaving the failure sentinel in the
/// caller's return register and everything else unchanged.
#[verifier::rlimit(100)]
#[verifier::spinoff_prover]
pub fn _sys_fork(k: &mut Kernel)
    requires
        old(k).inv(),
        old(k).dispatched(),
        old(k).pool.can_alloc(),
        old(k).pids.curr < u16::MAX,
    ensures
        final(k).inv(),
        final(k).dispatched(),
        spec_fork_effect(*old(k), *final(k)),
{
    let in_use = k.sched.get_in_use();
    if in_use >= 7 {
        // No free slot: surface the failure to the caller.
        write_curr_rax(k, SYS_FAILURE);
        return;
    }

    let curr = k.sched.get_curr();
    let ghost cur = k.cur_slot();
    let ghost pre = old(k).sched;
    let cpcb = k.sched.get_pcb(curr);
    let curr_stk = cpcb.stack;
    let curr_cxt = cpcb.cxt;
    proof {
        assert(old(k).cxt_placed(cur));
        old(k).pool.lemma_stack_word(curr_stk, 0);
        old(k).pool.lemma_cxt_word(curr_cxt, curr_stk, CXT_RSP as int);
    }

    // Duplicate the caller: fresh stack, verbatim stack image.
    let stk = k.pool.stk_alloc();
    let pid = k.pids.get_next_pid();
    let ppid = cpcb.pid;
    proof {
        assert(k.pool.valid_stack(curr_stk));
    }
    k.pool.stk_copy(curr_stk, stk);

    // Relocate the copied context by the distance between the stacks.
    let offset = stk - curr_stk;
    let cxt = curr_cxt + offset;
    let ghost kc = *k;
    proof {
        assert(k.pool.cxt_ok(cxt, stk)) by {
            assert(cxt as int - stk as int == curr_cxt as int - curr_stk as int);
        }
        k.pool.lemma_cxt_word(cxt, stk, CXT_RSP as int);
        k.pool.lemma_cxt_word(curr_cxt, curr_stk, CXT_RSP as int);
        assert(k.pool.words()[k.pool.word_at(curr_cxt) + CXT_RSP as int]
            == old(k).pool.words()[old(k).pool.word_at(curr_cxt) + CXT_RSP as int]);
    }
    let prsp = k.pool.read_word(curr_cxt + 8 * CXT_RSP);
    k.pool.write_word(cxt + 8 * CXT_RSP, prsp + offset);
    proof {
        k.pool.lemma_cxt_word(cxt, stk, CXT_RAX as int);
    }
    k.pool.write_word(cxt + 8 * CXT_RAX, 0);
    proof {
        k.pool.lemma_cxt_word(curr_cxt, curr_stk, CXT_RAX as int);
    }
    k.pool.write_word(curr_cxt + 8 * CXT_RAX, pid as u64);

    // The parent takes the child onto its count.
    proof {
        assert(pre.procs@[cur].children < 0xffff) by {
            assert(pre.procs@[cur].children == pre.count_children(cur));
            lemma_count_bounds(child_pred(pre.proc_stat@, pre.procs@, cur), 8);
        }
    }
    let pc = k.sched.get_pcb(curr);
    k.sched.procs.set(curr, Pcb { children: pc.children + 1, ..pc });

    // Admit and schedule the child.
    proof {
        lemma_count_ge_one(live_pred(pre.proc_stat@), 8, cur);
        assert(k.sched.wf());
    }
    let spot = k.sched._add_proc(cxt, stk, 0, 0, pid, ppid, 0);
    let ghost sa = k.sched;
    proof {
        assert(1 <= spot < 8);
        assert(sa.wf());
        scheduler::lemma_qlen_le_live(pre);
        assert(sa.qlen() == pre.qlen()) by {
            assert(sa.q@ == pre.q@);
        }
        assert(sa.cell_back(7) == sa.sched_ptr as int);
        assert(sa.can_enqueue(spot as int)) by {
            assert(sa.q@[sa.sched_ptr as int] == pre.q@[pre.sched_ptr as int]);
            assert(pre.cell_back(7) == pre.sched_ptr as int);
            assert(!pre.occupied(pre.sched_ptr as int));
        }
    }
    k.sched._schedule(spot as i8);
    proof {
        let c = spot as int;
        assert(k.sched.procs@ =~= sa.procs@);
        assert(c != cur) by {
            assert(pre.proc_stat@[cur] == 1);
        }
        lemma_fork_post(*old(k), kc, *k, sa, cur, c, cxt, stk, pid);
    }
}

/// The system-call number the dispatched process asked for, read from
/// its saved return-value register, with an out-of-range number
/// coerced to exit: a malformed call is fatal to the caller alone.
pub open spec fn spec_syscall_code(k: Kernel) -> u64 {
    let raw = k.cxt_field(k.cur_slot(), CXT_RAX as int);
    if raw >= NUM_SYSCALLS {
        SYS_EXIT
    } else {
        raw
    }
}

/// What one system call does, keyed by the number the caller loaded
/// into its saved return-value register: the selected call's whole
/// effect, with an out-of-range number acting as exit — the offender
/// is terminated rather than answered.
pub open spec fn spec_syscall_effect(k0: Kernel, k1: Kernel) -> bool {
    let code = spec_syscall_code(k0);
    &&& (code == SYS_EXIT ==> spec_exit_effect(k0, k1))
    &&& (code == SYS_FORK ==> spec_fork_effect(k0, k1))
    &&& (code == SYS_EXEC ==> spec_exec_effect(k0, k1))
    &&& (code == SYS_TIME ==> spec_time_effect(k0, k1))
    &&& (code == SYS_PID ==> spec_pid_effect(k0, k1))
    &&& (code == SYS_PPID ==> spec_ppid_effect(k0, k1))
    &&& (code == SYS_WAIT ==> spec_wait_effect(k0, k1))
}

/// The second-level system-call handler: reads the call number from
/// the caller's saved return-value register, coerces an out-of-range
/// number to exit, and runs the call. The caller acknowledges the
/// interrupt afterwards.
pub fn _sys_isr(k: &mut Kernel, vector: i32, ecode: i32)
    requires
        old(k).inv(),
        old(k).dispatched(),
        spec_syscall_code(*old(k)) == SYS_EXIT ==> {
            let pre = old(k).sched;
            &&& pre.procs@[pre.cur_slot()].pid != pcbs::PID_INIT
            &&& (pre.procs@[pre.find_parent(pre.cur_slot())].state == pcbs::ST_WAITING
                || pre.qlen() >= 2)
        },
        spec_syscall_code(*old(k)) == SYS_FORK ==> {
            &&& old(k).pool.can_alloc()
            &&& old(k).pids.curr < u16::MAX
        },
        spec_syscall_code(*old(k)) == SYS_WAIT ==> {
            let pre = old(k).sched;
            let cur = pre.cur_slot();
            pre.procs@[cur].children >= 1
                && pre.fz_from(pre.procs@[cur].pid, 0) == scheduler::NO_SLOT as int
                ==> pre.qlen() >= 2
        },
    ensures
        final(k).inv(),
        final(k).dispatched(),
        spec_syscall_effect(*old(k), *final(k)),
{
    let curr = k.sched.get_curr();
    let pcxt = k.sched.get_curr_cxt();
    proof {
        assert(k.cxt_placed(k.cur_slot()));
        k.pool.lemma_cxt_word(
            pcxt, k.sched.procs@[k.cur_slot()].stack, CXT_RAX as int,
        );
    }
    let mut code = k.pool.read_word(pcxt + 8 * CXT_RAX);

    if code >= NUM_SYSCALLS {
        code = SYS_EXIT;
    }
    proof {
        assert(code == spec_syscall_code(*old(k)));
    }

    if code == SYS_EXIT {
        _sys_exit(k);
    } else if code == SYS_FORK {
        _sys_fork(k);
    } else if code == SYS_EXEC {
        _sys_exec(k);
    } else if code == SYS_TIME {
        _sys_time(k);
    } else if code == SYS_PID {
        _sys_pid(k);
    } else if code == SYS_PPID {
        _sys_ppid(k);
    } else {
        _sys_wait(k);
    }
}

/// Exit, zombie, reap: wherever a Zombie child of a live parent is on
/// record — as one is after an exit whose parent was not yet waiting —
/// the zombie scan on the parent's pid finds a Zombie child, and the
/// parent's child count is still positive, so a wait by the parent
/// takes the reap path: it returns a zombie child's pid, frees that
/// slot, and drops the count by one.
pub proof fn lemma_exit_zombie_discoverable(k: Kernel, cur: int, p: int)
    requires
        k.inv(),
        0 <= cur < 8,
        0 <= p < 8,
        cur != p,
        k.sched.proc_stat@[cur] == 1,
        k.sched.procs@[cur].state == pcbs::ST_ZOMBIE,
        k.sched.proc_stat@[p] == 1,
        k.sched.procs@[cur].ppid == k.sched.procs@[p].pid,
    ensures
        ({
            let z = k.sched.fz_from(k.sched.procs@[p].pid, 0);
            &&& 0 <= z < 8
            &&& k.sched.procs@[z].state == pcbs::ST_ZOMBIE
            &&& k.sched.procs@[z].ppid == k.sched.procs@[p].pid
            &&& z != scheduler::NO_SLOT as int
        }),
        k.sched.procs@[p].children >= 1,
{
    assert(k.sched.procs@[cur].ppid == k.sched.procs@[p].pid
        && k.sched.procs@[cur].state == pcbs::ST_ZOMBIE);
    k.sched.lemma_fz_finds(k.sched.procs@[p].pid, 0);
    assert(k.sched.procs@[p].children == k.sched.count_children(p));
    lemma_count_ge_one(child_pred(k.sched.proc_stat@, k.sched.procs@, p), 8, cur);
}

/// Synchronous wait handoff: where a process is parked Waiting — as
/// the caller of wait is when it had children but no zombie yet — and
/// a live child of it later exits, the parent scan of death handling
/// finds exactly that Waiting parent, so the exit takes the handoff
/// path: the parent is made Ready with the child's pid in its return
/// register, and the child's slot is freed without ever being a
/// Zombie.
pub proof fn lemma_wait_handoff(k: Kernel, c: int, p: int)
    requires
        k.inv(),
        0 <= c < 8,
        0 <= p < 8,
        c != p,
        k.sched.proc_stat@[c] == 1,
        k.sched.proc_stat@[p] == 1,
        k.sched.procs@[c].ppid == k.sched.procs@[p].pid,
        k.sched.procs@[p].state == pcbs::ST_WAITING,
    ensures
        k.sched.find_parent(c) == p,
        k.sched.procs@[k.sched.find_parent(c)].state == pcbs::ST_WAITING,
{
    scheduler::lemma_find_parent_found(
        k.sched.proc_stat@, k.sched.procs@, k.sched.procs@[c].ppid, 8,
    );
    let q = k.sched.find_parent(c);
    assert(k.sched.proc_stat@[q] == 1
        && k.sched.procs@[q].pid == k.sched.procs@[c].ppid);
    if q != p {
        assert(k.sched.procs@[q].pid != k.sched.procs@[p].pid);
        assert(false);
    }
}

/// Registers the system-call handler on its vector.
pub fn _syscall_init(intr: &mut Interrupt)
    requires
        old(intr).wf(),
    ensures
        final(intr).wf(),
        final(intr).isr_table@ == old(intr).isr_table@.update(
            INT_VEC_SYSCALL as int, IsrHandler::Syscall),
{
    intr.__install_isr(INT_VEC_SYSCALL, IsrHandler::Syscall);
}

} // verus!
