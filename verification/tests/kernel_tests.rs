// Scenario tests for the process core: boot, fork, preemption, exit,
// wait, and the syscall dispatch, driven through the kernel object.

use kernel_core::clock::_clk_isr;
use kernel_core::kernel::rs_sys_init;
use kernel_core::kernel::Kernel;
use kernel_core::pcbs;
use kernel_core::scheduler;
use kernel_core::syscalls;

const MEM_BASE: u64 = 0x100000;
const EXIT_POINT: u64 = 0x400000;
const INIT_ENTRY: u64 = 0x10000;
const STUB_TABLE: u64 = 0x5000;

fn boot() -> Kernel {
    let mut k = Kernel::new(MEM_BASE, EXIT_POINT);
    rs_sys_init(&mut k, INIT_ENTRY, STUB_TABLE);
    k
}

fn cur_slot(k: &Kernel) -> usize {
    k.sched.q[k.sched.current as usize] as usize
}

fn read_reg(k: &Kernel, slot: usize, off: u64) -> u64 {
    k.pool.read_word(k.sched.procs[slot].cxt + 8 * off)
}

fn write_reg(k: &mut Kernel, slot: usize, off: u64, v: u64) {
    let addr = k.sched.procs[slot].cxt + 8 * off;
    k.pool.write_word(addr, v);
}

/// Advances time by full quanta until the given slot is dispatched.
fn run_until_current(k: &mut Kernel, slot: usize) {
    let mut guard = 0;
    while cur_slot(k) != slot {
        _clk_isr(k, 0x20, 0);
        guard += 1;
        assert!(guard < 100, "slot never scheduled");
    }
}

#[test]
fn boot_dispatches_init() {
    let k = boot();
    assert_eq!(cur_slot(&k), 0);
    assert_eq!(k.sched.procs[0].pid, pcbs::PID_INIT);
    assert_eq!(k.sched.procs[0].ppid, pcbs::PID_INIT);
    assert_eq!(k.sched.procs[0].state, pcbs::ST_RUNNING);
    assert_eq!(k.sched.procs[0].ticks, scheduler::QUANTUM_STD);
    assert_eq!(k.sched.procs[0].children, 0);
    assert_eq!(k.sched.in_use, 1);
    assert_eq!(k.clock.get_time(), 0);
}

#[test]
fn fork_duplicates_parent() {
    let mut k = boot();
    // Scribble something recognizable into the parent's stack.
    let pstk = k.sched.procs[0].stack;
    k.pool.write_word(pstk + 8 * 10, 0xabcd);
    syscalls::_sys_fork(&mut k);

    // The child sits in slot 1 with the first allocated pid.
    assert_eq!(k.sched.proc_stat[1], 1);
    assert_eq!(k.sched.procs[1].pid, pcbs::PID_FIRST);
    assert_eq!(k.sched.procs[1].ppid, pcbs::PID_INIT);
    assert_eq!(k.sched.procs[1].state, pcbs::ST_READY);
    assert_eq!(k.sched.procs[1].children, 0);
    assert_eq!(k.sched.procs[0].children, 1);
    assert_eq!(k.sched.in_use, 2);

    // Parent reads the child's pid, the child reads zero.
    assert_eq!(read_reg(&k, 0, pcbs::CXT_RAX), pcbs::PID_FIRST as u64);
    assert_eq!(read_reg(&k, 1, pcbs::CXT_RAX), 0);

    // The child's stack is the parent's image, except the relocated
    // stack pointer and the cleared return register.
    let cstk = k.sched.procs[1].stack;
    let delta = cstk - pstk;
    assert_eq!(k.sched.procs[1].cxt, k.sched.procs[0].cxt + delta);
    assert_eq!(
        read_reg(&k, 1, pcbs::CXT_RSP),
        read_reg(&k, 0, pcbs::CXT_RSP) + delta
    );
    let parent_words = k.pool.read_stack(pstk);
    let child_words = k.pool.read_stack(cstk);
    let co = ((k.sched.procs[0].cxt - pstk) / 8) as usize;
    for w in 0..1024usize {
        if w != co + pcbs::CXT_RSP as usize && w != co + pcbs::CXT_RAX as usize {
            assert_eq!(child_words.data[w], parent_words.data[w], "word {}", w);
        }
    }
    assert_eq!(child_words.data[10], 0xabcd);
}

#[test]
fn fork_at_capacity_fails() {
    let mut k = boot();
    for _ in 0..6 {
        syscalls::_sys_fork(&mut k);
    }
    assert_eq!(k.sched.in_use, 7);
    let before = k.sched.procs.clone();
    syscalls::_sys_fork(&mut k);
    // The failure sentinel lands in the caller's return register and
    // the table is unchanged.
    assert_eq!(read_reg(&k, 0, pcbs::CXT_RAX), syscalls::SYS_FAILURE);
    assert_eq!(k.sched.in_use, 7);
    for i in 0..8 {
        assert_eq!(k.sched.procs[i].pid, before[i].pid);
        assert_eq!(k.sched.procs[i].state, before[i].state);
    }
}

#[test]
fn admission_cap_leaves_table_unchanged() {
    let mut sched = scheduler::Scheduler::new();
    for i in 0..7u16 {
        let r = sched._add_proc(0, 0, 0, 0, 100 + i, 1, 0);
        assert!(r < 8);
    }
    assert_eq!(sched.get_in_use(), 7);
    let r = sched._add_proc(0, 0, 0, 0, 200, 1, 0);
    assert_eq!(r, scheduler::NO_SLOT as usize);
    assert_eq!(sched.get_in_use(), 7);
}

#[test]
fn quantum_counts_down_and_rotates() {
    let mut k = boot();
    syscalls::_sys_fork(&mut k);
    assert_eq!(cur_slot(&k), 0);
    assert_eq!(k.sched.procs[0].ticks, 5);
    for expected in [4u8, 3, 2, 1] {
        _clk_isr(&mut k, 0x20, 0);
        assert_eq!(k.sched.procs[0].ticks, expected);
        assert_eq!(cur_slot(&k), 0);
    }
    // The fifth tick exhausts the quantum: the child runs next with a
    // fresh quantum, and init is Ready at the queue's tail.
    _clk_isr(&mut k, 0x20, 0);
    assert_eq!(cur_slot(&k), 1);
    assert_eq!(k.sched.procs[1].ticks, scheduler::QUANTUM_STD);
    assert_eq!(k.sched.procs[1].state, pcbs::ST_RUNNING);
    assert_eq!(k.sched.procs[0].state, pcbs::ST_READY);
    assert_eq!(k.clock.get_time(), 5);
}

#[test]
fn scenario_round_robin_after_init_waits() {
    // Scenario: init forks an idle and a worker process, then parks
    // in wait; dispatch alternates between the two children in their
    // enqueue order.
    let mut k = boot();
    syscalls::_sys_fork(&mut k); // idle, slot 1
    syscalls::_sys_fork(&mut k); // worker, slot 2
    let idle_pid = k.sched.procs[1].pid;
    let worker_pid = k.sched.procs[2].pid;
    syscalls::_sys_wait(&mut k); // no zombie child: init parks
    assert_eq!(k.sched.procs[0].state, pcbs::ST_WAITING);

    let mut seen = Vec::new();
    for _ in 0..4 {
        seen.push(k.sched.procs[cur_slot(&k)].pid);
        for _ in 0..5 {
            _clk_isr(&mut k, 0x20, 0);
        }
    }
    assert_eq!(seen, vec![idle_pid, worker_pid, idle_pid, worker_pid]);
}

#[test]
fn scenario_exit_wakes_waiting_parent() {
    // Scenario: the worker exits with status 7 while init is parked
    // in wait; init is woken with the worker's pid, the worker's slot
    // is reclaimed with no Zombie in between, and init's child count
    // drops by one.
    let mut k = boot();
    syscalls::_sys_fork(&mut k); // idle, slot 1
    syscalls::_sys_fork(&mut k); // worker, slot 2
    let worker_pid = k.sched.procs[2].pid;
    syscalls::_sys_wait(&mut k); // init parks
    assert_eq!(k.sched.procs[0].children, 2);

    run_until_current(&mut k, 2);
    write_reg(&mut k, 2, pcbs::CXT_RDI, 7);
    syscalls::_sys_exit(&mut k);

    assert_eq!(read_reg(&k, 0, pcbs::CXT_RAX), worker_pid as u64);
    assert_ne!(k.sched.procs[0].state, pcbs::ST_WAITING);
    assert_eq!(k.sched.proc_stat[2], 0);
    assert_ne!(k.sched.procs[2].state, pcbs::ST_ZOMBIE);
    assert_eq!(k.sched.procs[0].children, 1);
    assert_eq!(k.sched.in_use, 2);
}

#[test]
fn scenario_exit_reparents_children_to_init() {
    // Scenario: a process with two children forks a third, then dies
    // before any child exits; all its children are reparented to init
    // and init's count takes them in.
    let mut k = boot();
    syscalls::_sys_fork(&mut k); // slot 1: the parent-to-be
    run_until_current(&mut k, 1);
    syscalls::_sys_fork(&mut k); // slot 2
    syscalls::_sys_fork(&mut k); // slot 3
    syscalls::_sys_fork(&mut k); // slot 4
    assert_eq!(k.sched.procs[1].children, 3);
    assert_eq!(k.sched.procs[0].children, 1);
    let dying_pid = k.sched.procs[1].pid;

    syscalls::_sys_exit(&mut k);

    for slot in [2usize, 3, 4] {
        assert_eq!(k.sched.procs[slot].ppid, pcbs::PID_INIT, "slot {}", slot);
    }
    // Init was not waiting: the dying process stays a childless
    // Zombie, discoverable by the zombie scan on init's pid.
    assert_eq!(k.sched.procs[1].state, pcbs::ST_ZOMBIE);
    assert_eq!(k.sched.procs[1].children, 0);
    assert_eq!(k.sched.procs[1].pid, dying_pid);
    assert_eq!(k.sched.find_zombie(pcbs::PID_INIT), 1);
    // Init owns its original child (now a zombie) plus the three
    // reparented ones.
    assert_eq!(k.sched.procs[0].children, 4);
}

#[test]
fn wait_reaps_zombie_child() {
    // The exit/zombie/reap round trip: a child exits while its parent
    // is not waiting, becomes a discoverable Zombie, and a later wait
    // by the parent returns its pid and frees the slot.
    let mut k = boot();
    syscalls::_sys_fork(&mut k); // slot 1
    let child_pid = k.sched.procs[1].pid;
    assert_eq!(k.sched.procs[0].children, 1);

    run_until_current(&mut k, 1);
    syscalls::_sys_exit(&mut k);
    assert_eq!(k.sched.procs[1].state, pcbs::ST_ZOMBIE);
    assert_eq!(k.sched.find_zombie(pcbs::PID_INIT), 1);

    run_until_current(&mut k, 0);
    syscalls::_sys_wait(&mut k);
    assert_eq!(read_reg(&k, 0, pcbs::CXT_RAX), child_pid as u64);
    assert_eq!(k.sched.proc_stat[1], 0);
    assert_eq!(k.sched.procs[1].state, pcbs::ST_UNUSED);
    assert_eq!(k.sched.procs[0].children, 0);
}

#[test]
fn wait_without_children_fails_fast() {
    let mut k = boot();
    syscalls::_sys_fork(&mut k); // slot 1
    run_until_current(&mut k, 1);
    syscalls::_sys_wait(&mut k);
    // The childless caller gets the not-found sentinel and keeps the
    // CPU.
    assert_eq!(read_reg(&k, 1, pcbs::CXT_RAX), syscalls::SYS_FAILURE);
    assert_eq!(cur_slot(&k), 1);
}

#[test]
fn exec_reseeds_the_callers_stack() {
    let mut k = boot();
    write_reg(&mut k, 0, pcbs::CXT_RDI, 0x777000);
    syscalls::_sys_exec(&mut k);
    let stk = k.sched.procs[0].stack;
    assert_eq!(k.sched.procs[0].cxt, stk + 8 * 1000);
    assert_eq!(read_reg(&k, 0, pcbs::CXT_RIP), 0x777000);
    assert_eq!(read_reg(&k, 0, pcbs::CXT_RSP), stk + 8 * 1022);
    assert_eq!(
        read_reg(&k, 0, pcbs::CXT_RFLAGS),
        kernel_core::common::DEFAULT_EFLAGS
    );
    // The synthetic return chain: a zero terminator above the
    // process-exit return address.
    assert_eq!(k.pool.read_word(stk + 8 * 1023), 0);
    assert_eq!(k.pool.read_word(stk + 8 * 1022), EXIT_POINT);
}

#[test]
fn time_pid_ppid_answer_through_the_context() {
    let mut k = boot();
    _clk_isr(&mut k, 0x20, 0);
    _clk_isr(&mut k, 0x20, 0);
    syscalls::_sys_time(&mut k);
    assert_eq!(read_reg(&k, 0, pcbs::CXT_RAX), 2);
    syscalls::_sys_pid(&mut k);
    assert_eq!(read_reg(&k, 0, pcbs::CXT_RAX), pcbs::PID_INIT as u64);
    syscalls::_sys_ppid(&mut k);
    assert_eq!(read_reg(&k, 0, pcbs::CXT_RAX), pcbs::PID_INIT as u64);
}

#[test]
fn syscall_dispatch_reads_the_code_register() {
    let mut k = boot();
    _clk_isr(&mut k, 0x20, 0);
    write_reg(&mut k, 0, pcbs::CXT_RAX, syscalls::SYS_TIME);
    syscalls::_sys_isr(&mut k, 0x42, 0);
    assert_eq!(read_reg(&k, 0, pcbs::CXT_RAX), 1);
}

#[test]
fn unknown_syscall_is_coerced_to_exit() {
    // An out-of-range syscall number kills the offending process.
    let mut k = boot();
    syscalls::_sys_fork(&mut k); // slot 1
    syscalls::_sys_fork(&mut k); // slot 2, so the queue stays busy
    run_until_current(&mut k, 1);
    write_reg(&mut k, 1, pcbs::CXT_RAX, 0xfff);
    syscalls::_sys_isr(&mut k, 0x42, 0);
    assert_eq!(k.sched.procs[1].state, pcbs::ST_ZOMBIE);
}
