//! The scheduler: the fixed-capacity process table, the bounded
//! circular ready queue, and the current-process cursor. Admission,
//! ready-queue insertion, dispatch, process death and zombie reaping
//! all live here.

use vstd::prelude::*;
use crate::counting::count_if;
use crate::counting::lemma_count_bounds;
use crate::counting::lemma_count_le;
use crate::counting::lemma_count_agree;
use crate::counting::lemma_count_ge_one;
use crate::counting::lemma_count_mono;
use crate::counting::lemma_count_none;
use crate::counting::lemma_count_split;
use crate::counting::lemma_count_update;
use crate::counting::lemma_count_range_true;
use crate::pcbs;
use crate::pcbs::Pcb;
use crate::pcbs::CXT_RAX;
use crate::stacks::StackPool;

verus! {

/// How many process slots the table has.
pub const NUM_PROC: u8 = 8;

/// Quantum size: timer ticks a dispatched process may use.
pub const QUANTUM_STD: u8 = 5;

/// Sentinel returned where a slot index is expected but none exists:
/// admission failure, and no zombie child found.
pub const NO_SLOT: u8 = 9;

/// Scheduler state: process table, in-use flags, ready queue and the
/// two queue cursors.
pub struct Scheduler {
    /// Whether each slot of the table is in use (1) or free (0).
    pub proc_stat: Vec<u8>,
    /// The process table.
    pub procs: Vec<Pcb>,
    /// The ready queue: a circular buffer of slot indices, -1 where a
    /// cell is empty.
    pub q: Vec<i8>,
    /// Number of slots in use.
    pub in_use: u8,
    /// Queue cell of the currently dispatched process; the read cursor.
    pub current: u8,
    /// Queue cell the next insertion writes; the write cursor.
    pub sched_ptr: u8,
}

/// `x` reduced modulo `NUM_PROC`, for `x` below twice that.
pub open spec fn wrap8(x: int) -> int {
    if x >= 8 {
        x - 8
    } else {
        x
    }
}

/// Slot `i` is in use.
pub open spec fn live_pred(stat: Seq<u8>) -> spec_fn(int) -> bool {
    |i: int| stat[i] == 1
}

/// Queue cell `j` is occupied.
pub open spec fn occ_pred(q: Seq<i8>) -> spec_fn(int) -> bool {
    |j: int| q[j] != -1
}

/// Slot `j` holds a live child of slot `i`.
pub open spec fn child_pred(stat: Seq<u8>, procs: Seq<Pcb>, i: int) -> spec_fn(int) -> bool {
    |j: int| j != i && stat[j] == 1 && procs[j].ppid == procs[i].pid
}

/// Slot `i` holds a live Running process.
pub open spec fn running_pred(stat: Seq<u8>, procs: Seq<Pcb>) -> spec_fn(int) -> bool {
    |i: int| stat[i] == 1 && procs[i].state == pcbs::ST_RUNNING
}

/// Value `v` stands in one of the first `n` queue cells.
pub open spec fn inq_pred(q: Seq<i8>, n: int) -> spec_fn(int) -> bool {
    |v: int| exists|j: int| 0 <= j < n && q[j] == v
}

/// The occupied cells of a well-formed queue hold distinct live slots,
/// so there are no more of them than there are live slots.
pub proof fn lemma_inq_aux(q: Seq<i8>, stat: Seq<u8>, n: int)
    requires
        q.len() == 8,
        stat.len() == 8,
        0 <= n <= 8,
        forall|j: int| 0 <= j < 8 && #[trigger] q[j] != -1 ==> 0 <= q[j] < 8 && stat[q[j] as int] == 1,
        forall|j1: int, j2: int|
            0 <= j1 < 8 && 0 <= j2 < 8 && j1 != j2
                && #[trigger] q[j1] != -1 && #[trigger] q[j2] != -1
            ==> q[j1] != q[j2],
    ensures
        count_if(occ_pred(q), n) <= count_if(inq_pred(q, n), 8),
    decreases n,
{
    if n == 0 {
        lemma_count_bounds(inq_pred(q, 0), 8);
    } else {
        lemma_inq_aux(q, stat, n - 1);
        if q[n - 1] == -1 {
            assert forall|u: int| 0 <= u < 8
                implies #[trigger] inq_pred(q, n - 1)(u) == #[trigger] inq_pred(q, n)(u)
            by {
                if inq_pred(q, n)(u) {
                    let j = choose|j: int| 0 <= j < n && q[j] == u;
                    assert(j < n - 1);
                    assert(inq_pred(q, n - 1)(u));
                }
            }
            lemma_count_agree(inq_pred(q, n - 1), inq_pred(q, n), 8);
        } else {
            let v = q[n - 1] as int;
            assert(!inq_pred(q, n - 1)(v)) by {
                if inq_pred(q, n - 1)(v) {
                    let j = choose|j: int| 0 <= j < n - 1 && q[j] == v;
                    assert(q[j] != q[n - 1]);
                }
            }
            assert forall|u: int| 0 <= u < 8 && u != v
                implies #[trigger] inq_pred(q, n - 1)(u) == #[trigger] inq_pred(q, n)(u)
            by {
                if inq_pred(q, n)(u) {
                    let j = choose|j: int| 0 <= j < n && q[j] == u;
                    assert(j < n - 1);
                    assert(inq_pred(q, n - 1)(u));
                }
            }
            lemma_count_update(inq_pred(q, n - 1), inq_pred(q, n), 8, v);
            assert(inq_pred(q, n)(v)) by {
                assert(0 <= n - 1 < n && q[n - 1] == v);
            }
        }
    }
}

/// There are at most as many queued slots as live slots.
pub proof fn lemma_qlen_le_live(s: Scheduler)
    requires
        s.wf(),
        s.nodup(),
    ensures
        s.qlen() <= s.in_use,
{
    lemma_inq_aux(s.q@, s.proc_stat@, 8);
    assert forall|v: int| 0 <= v < 8 && #[trigger] inq_pred(s.q@, 8)(v)
        implies #[trigger] live_pred(s.proc_stat@)(v)
    by {
        let j = choose|j: int| 0 <= j < 8 && s.q@[j] == v;
        assert(s.q@[j] != -1);
    }
    lemma_count_le(inq_pred(s.q@, 8), live_pred(s.proc_stat@), 8);
}

/// Mutual exclusion of Running: in every scheduler state satisfying
/// the scheduling invariant in which a process has been dispatched,
/// exactly one live process is Running, namely the one named by the
/// read cursor's queue cell. (Inside dispatch itself the property is
/// transiently broken; the invariant speaks of the states between
/// operations.)
pub proof fn lemma_running_unique(s: Scheduler)
    requires
        s.q_inv(),
        s.dispatched(),
    ensures
        s.count_running() == 1,
        forall|i: int| 0 <= i < 8
            ==> ((#[trigger] s.proc_stat@[i] == 1 && s.procs@[i].state == pcbs::ST_RUNNING)
                <==> i == s.cur_slot()),
{
    let cur = s.cur_slot();
    assert(s.proc_stat@[cur] == 1 && s.procs@[cur].state == pcbs::ST_RUNNING);
    assert forall|i: int| 0 <= i < 8
        implies #[trigger] running_pred(s.proc_stat@, s.procs@)(i) == (i == cur)
    by {
        if running_pred(s.proc_stat@, s.procs@)(i) {
            assert(s.proc_stat@[i] == 1 && s.procs@[i].state == pcbs::ST_RUNNING);
        }
    }
    lemma_count_agree(running_pred(s.proc_stat@, s.procs@), |i: int| i == cur, 8);
    lemma_count_none(|i: int| false, 8);
    lemma_count_update(|i: int| false, |i: int| i == cur, 8, cur);
}

/// The ready queue never holds the same slot twice: distinct occupied
/// cells name distinct processes.
pub proof fn lemma_ready_queue_no_dup(s: Scheduler)
    requires
        s.q_inv(),
    ensures
        forall|j1: int, j2: int|
            0 <= j1 < 8 && 0 <= j2 < 8 && j1 != j2
                && #[trigger] s.q@[j1] != -1 && #[trigger] s.q@[j2] != -1
            ==> s.q@[j1] != s.q@[j2],
{
}

/// FIFO dispatch order: the ready queue is served strictly in enqueue
/// order. The read cursor stands on the oldest occupied cell (the
/// running process's), the cell a dispatch selects next is the
/// second-oldest, and an insertion goes to the cell one past the
/// newest; since dispatch advances exactly one cell per call, a full
/// sweep visits every enqueued slot once before coming round again.
pub proof fn lemma_dispatch_fifo(s: Scheduler)
    requires
        s.q_inv(),
        s.dispatched(),
    ensures
        s.current as int == s.cell_back(s.qlen() - 1),
        s.qlen() >= 2 ==> wrap8(s.current + 1) == s.cell_back(s.qlen() - 2),
        !s.occupied(s.sched_ptr as int) ==> s.sched_ptr as int == wrap8(
            s.cell_back(0) + 1),
{
    lemma_count_bounds(occ_pred(s.q@), 8);
    lemma_count_ge_one(occ_pred(s.q@), 8, s.current as int);
    assert(s.cell_back(s.qlen() - 1) == s.current as int);
    if s.qlen() >= 2 {
        assert(s.cell_back(s.qlen() - 2) == wrap8(s.current + 1));
    }
}

/// Last slot below `n` holding a live process with id `ppid`, or 0 if
/// there is none: how the parent of a dying process is located.
pub open spec fn find_parent_at(stat: Seq<u8>, procs: Seq<Pcb>, ppid: u16, n: int) -> int
    decreases n,
{
    if n <= 0 {
        0
    } else if stat[n - 1] == 1 && procs[n - 1].pid == ppid {
        n - 1
    } else {
        find_parent_at(stat, procs, ppid, n - 1)
    }
}

/// The parent scan reads only the in-use flags and the process ids.
pub proof fn lemma_find_parent_agree(
    stat1: Seq<u8>, procs1: Seq<Pcb>, stat2: Seq<u8>, procs2: Seq<Pcb>, ppid: u16, n: int,
)
    requires
        0 <= n,
        forall|i: int| 0 <= i < n ==> #[trigger] stat1[i] == #[trigger] stat2[i],
        forall|i: int| 0 <= i < n ==> #[trigger] procs1[i].pid == #[trigger] procs2[i].pid,
    ensures
        find_parent_at(stat1, procs1, ppid, n) == find_parent_at(stat2, procs2, ppid, n),
    decreases n,
{
    if n > 0 {
        lemma_find_parent_agree(stat1, procs1, stat2, procs2, ppid, n - 1);
    }
}

/// Where a live slot with the sought id exists, the parent scan finds
/// the last one.
pub proof fn lemma_find_parent_found(stat: Seq<u8>, procs: Seq<Pcb>, ppid: u16, n: int)
    requires
        0 < n,
        exists|j: int| 0 <= j < n && #[trigger] stat[j] == 1 && procs[j].pid == ppid,
    ensures
        ({
            let p = find_parent_at(stat, procs, ppid, n);
            &&& 0 <= p < n
            &&& stat[p] == 1
            &&& procs[p].pid == ppid
        }),
    decreases n,
{
    if !(stat[n - 1] == 1 && procs[n - 1].pid == ppid) {
        lemma_find_parent_found(stat, procs, ppid, n - 1);
    }
}

/// The identity and accounting invariants read only the in-use flags
/// and the identity fields: they survive any change that keeps those,
/// scheduling-state changes included, as long as no slot's zombiehood
/// flips.
pub proof fn lemma_identity_preserved(s0: Scheduler, s1: Scheduler)
    requires
        s0.len_ok(),
        s0.pids_unique(),
        s0.children_ok(),
        s0.parent_ok(),
        s0.zombies_childless(),
        s0.init_ok(),
        s0.no_self_parent(),
        s1.proc_stat@ == s0.proc_stat@,
        s1.procs@.len() == 8,
        forall|i: int| 0 <= i < 8 ==> #[trigger] s1.procs@[i].pid == s0.procs@[i].pid,
        forall|i: int| 0 <= i < 8 ==> #[trigger] s1.procs@[i].ppid == s0.procs@[i].ppid,
        forall|i: int| 0 <= i < 8 ==> #[trigger] s1.procs@[i].children == s0.procs@[i].children,
        forall|i: int| 0 <= i < 8 ==> ((#[trigger] s1.procs@[i].state == pcbs::ST_ZOMBIE)
            == (s0.procs@[i].state == pcbs::ST_ZOMBIE)),
    ensures
        s1.pids_unique(),
        s1.children_ok(),
        s1.parent_ok(),
        s1.zombies_childless(),
        s1.init_ok(),
        s1.no_self_parent(),
{
    assert forall|i: int| 0 <= i < 8 && #[trigger] s1.proc_stat@[i] == 1
        implies s1.procs@[i].children == s1.count_children(i)
    by {
        crate::counting::lemma_count_agree(
            child_pred(s0.proc_stat@, s0.procs@, i),
            child_pred(s1.proc_stat@, s1.procs@, i),
            8,
        );
    }
    assert forall|i: int| 0 < i < 8 && #[trigger] s1.proc_stat@[i] == 1
        implies exists|j: int| 0 <= j < 8 && #[trigger] s1.proc_stat@[j] == 1
            && s1.procs@[j].pid == s1.procs@[i].ppid
    by {
        let j = choose|j: int| 0 <= j < 8 && #[trigger] s0.proc_stat@[j] == 1
            && s0.procs@[j].pid == s0.procs@[i].ppid;
        assert(s1.proc_stat@[j] == 1 && s1.procs@[j].pid == s1.procs@[i].ppid);
    }
}

/// Admitting a fresh process preserves the scheduling invariant: the
/// new slot is Ready and stands nowhere in the queue.
pub proof fn lemma_q_admit(s0: Scheduler, s1: Scheduler, next: int)
    requires
        s0.q_inv(),
        0 <= next < 8,
        !s0.live(next),
        s1.proc_stat@ == s0.proc_stat@.update(next, 1u8),
        s1.procs@.len() == 8,
        s1.q@ == s0.q@,
        s1.current == s0.current,
        s1.sched_ptr == s0.sched_ptr,
        s1.wf(),
        s1.procs@[next].state == pcbs::ST_READY,
        forall|i: int| 0 <= i < 8 && i != next ==> #[trigger] s1.procs@[i] == s0.procs@[i],
    ensures
        s1.q_inv(),
        s1.qlen() == s0.qlen(),
        s1.dispatched() == s0.dispatched(),
        s0.dispatched() ==> s1.cur_slot() == s0.cur_slot(),
{
    assert(s1.q@ == s0.q@);
    assert forall|j: int| 0 <= j < 8 && #[trigger] s1.q@[j] != -1
        implies s1.q@[j] != next
    by {
        assert(s0.proc_stat@[s0.q@[j] as int] == 1);
    }
    assert forall|t: int| 0 <= t < 8
        implies (s1.occupied(#[trigger] s1.cell_back(t)) <==> t < s1.qlen())
    by {
        assert(s1.cell_back(t) == s0.cell_back(t));
        assert(s0.occupied(s0.cell_back(t)) <==> t < s0.qlen());
    }
}

/// Enqueueing a Ready process that is not yet queued, with a free
/// write cell, preserves the scheduling invariant and appends it at
/// the tail.
pub proof fn lemma_q_enqueue(s0: Scheduler, s1: Scheduler, ind: int)
    requires
        s0.q_inv(),
        s0.qlen() <= 7,
        s0.dispatched(),
        0 <= ind < 8,
        s0.live(ind),
        ind != s0.cur_slot(),
        forall|j: int| 0 <= j < 8 ==> #[trigger] s0.q@[j] != ind,
        s1.proc_stat@ == s0.proc_stat@,
        s1.in_use == s0.in_use,
        s1.current == s0.current,
        s1.q@ == s0.q@.update(s0.sched_ptr as int, ind as i8),
        s1.sched_ptr == wrap8(s0.sched_ptr + 1),
        s1.procs@.len() == 8,
        s1.procs@[ind].state == pcbs::ST_READY,
        s1.procs@[ind].spot == s0.procs@[ind].spot,
        forall|i: int| 0 <= i < 8 && i != ind
            ==> #[trigger] s1.procs@[i].state == s0.procs@[i].state,
        forall|i: int| 0 <= i < 8 ==> #[trigger] s1.procs@[i].ticks == s0.procs@[i].ticks,
        forall|i: int| 0 <= i < 8 ==> #[trigger] s1.procs@[i].spot == s0.procs@[i].spot,
    ensures
        s1.q_inv(),
        s1.qlen() == s0.qlen() + 1,
        s1.dispatched(),
        s1.cur_slot() == s0.cur_slot(),
{
    let sp = s0.sched_ptr as int;
    let cur = s0.current as int;
    // The write cell is free: it sits just past the queue's tail.
    assert(s0.cell_back(7) == sp);
    assert(!s0.occupied(sp));
    assert(s0.q@[cur] != -1);
    assert(cur != sp);
    lemma_count_update(occ_pred(s0.q@), occ_pred(s1.q@), 8, sp);
    assert(s1.qlen() == s0.qlen() + 1);
    assert forall|t: int| 0 <= t < 8
        implies (s1.occupied(#[trigger] s1.cell_back(t)) <==> t < s1.qlen())
    by {
        lemma_count_bounds(occ_pred(s0.q@), 8);
        if t == 0 {
            assert(s1.cell_back(0) == sp);
            assert(s1.q@[sp] == ind as i8);
        } else {
            assert(s1.cell_back(t) == s0.cell_back(t - 1));
            assert(s0.cell_back(t - 1) != sp);
            assert(s1.q@[s0.cell_back(t - 1)] == s0.q@[s0.cell_back(t - 1)]);
            assert(s0.occupied(s0.cell_back(t - 1)) <==> t - 1 < s0.qlen());
        }
    }
    assert(s1.wf());
    assert(s1.nodup());
    assert(s1.cursor_ok());
    assert(s1.states_ok());
    assert(s1.running_only_current());
    assert(s1.ticks_ok());
}

/// With at least two processes queued, the cell after the read cursor
/// is occupied: dispatch has somewhere to go.
pub proof fn lemma_q_next_occupied(s: Scheduler)
    requires
        s.len_ok(),
        s.q_shape(),
        s.cursor_ok(),
        s.occupied(s.current as int),
        s.qlen() >= 2,
    ensures
        s.q@[wrap8(s.current + 1)] != -1,
        wrap8(s.current + 1) != s.current,
{
    let sp = s.sched_ptr as int;
    let cur = s.current as int;
    assert(s.occupied(s.cell_back(s.qlen() - 2))) by {
        assert(s.qlen() <= 8) by {
            lemma_count_bounds(occ_pred(s.q@), 8);
        }
    }
    assert(s.cell_back(s.qlen() - 2) == wrap8(cur + 1));
}

/// Dispatching from a queue whose cells other than the read cursor's
/// hold live Ready processes, with no process Running, restores the
/// scheduling invariant: the cursor's cell is cleared (whatever holds
/// it: the process leaving the CPU may be Waiting, a Zombie, or an
/// already reclaimed slot) and the next queued process becomes the
/// Running one.
pub proof fn lemma_q_dispatch(s1: Scheduler, s2: Scheduler)
    requires
        s1.len_ok(),
        forall|i: int| 0 <= i < 8
            ==> #[trigger] s1.proc_stat@[i] == 0 || s1.proc_stat@[i] == 1,
        forall|i: int| 0 <= i < 8 && #[trigger] s1.proc_stat@[i] == 1
            ==> s1.procs@[i].spot == i,
        s1.in_use == s1.count_live(),
        s1.nodup(),
        s1.q_shape(),
        s1.cursor_ok(),
        s1.occupied(s1.current as int),
        s1.qlen() >= 2,
        forall|j: int| 0 <= j < 8 && j != s1.current && #[trigger] s1.q@[j] != -1
            ==> 0 <= s1.q@[j] < 8 && s1.proc_stat@[s1.q@[j] as int] == 1
                && s1.procs@[s1.q@[j] as int].state == pcbs::ST_READY,
        forall|i: int| 0 <= i < 8 && #[trigger] s1.proc_stat@[i] == 1
            ==> s1.procs@[i].state != pcbs::ST_RUNNING,
        s2.proc_stat@ == s1.proc_stat@,
        s2.in_use == s1.in_use,
        s2.sched_ptr == s1.sched_ptr,
        s2.q@ == s1.q@.update(s1.current as int, -1i8),
        s2.current == wrap8(s1.current + 1),
        s2.procs@ == s1.procs@.update(
            s1.q@[wrap8(s1.current + 1)] as int,
            Pcb {
                state: pcbs::ST_RUNNING,
                ticks: QUANTUM_STD,
                ..s1.procs@[s1.q@[wrap8(s1.current + 1)] as int]
            },
        ),
    ensures
        s2.q_inv(),
        s2.dispatched(),
        s2.cur_slot() == s1.q@[wrap8(s1.current + 1)] as int,
        s2.qlen() == s1.qlen() - 1,
{
    let sp = s1.sched_ptr as int;
    let cur = s1.current as int;
    let nxt = wrap8(cur + 1);
    lemma_q_next_occupied(s1);
    let sel = s1.q@[nxt] as int;
    assert(0 <= sel < 8 && s1.proc_stat@[sel] == 1);
    lemma_count_bounds(occ_pred(s1.q@), 8);
    lemma_count_update(occ_pred(s1.q@), occ_pred(s2.q@), 8, cur);
    assert(s2.qlen() == s1.qlen() - 1);
    // The old read cursor sits on the oldest cell; clearing it leaves
    // a contiguous segment one shorter, starting one cell later.
    assert(s1.cell_back(s1.qlen() - 1) == cur);
    assert forall|t: int| 0 <= t < 8
        implies (s2.occupied(#[trigger] s2.cell_back(t)) <==> t < s2.qlen())
    by {
        assert(s2.cell_back(t) == s1.cell_back(t));
        assert(s1.occupied(s1.cell_back(t)) <==> t < s1.qlen());
        if t != s1.qlen() - 1 {
            assert(s1.cell_back(t) != cur);
        }
    }
    assert(s2.occupied(s2.current as int)) by {
        assert(s2.cell_back(s2.qlen() - 1) == nxt);
    }
    assert(s2.wf());
    assert(s2.nodup());
    assert(s2.cursor_ok());
    assert forall|j: int| 0 <= j < 8 && j != s2.current && #[trigger] s2.q@[j] != -1
        implies s2.procs@[s2.q@[j] as int].state == pcbs::ST_READY
    by {
        assert(s2.q@[j] == s1.q@[j]);
        assert(j != cur);
        if s1.q@[j] == sel {
            assert(s1.q@[nxt as int] != -1);
            assert(false);
        }
    }
    assert(s2.states_ok());
    assert forall|i: int| 0 <= i < 8 && #[trigger] s2.proc_stat@[i] == 1
            && #[trigger] s2.procs@[i].state == pcbs::ST_RUNNING
        implies s2.occupied(s2.current as int) && s2.q@[s2.current as int] == i
    by {
        if i != sel {
            assert(s2.procs@[i] == s1.procs@[i]);
        }
    }
    assert(s2.running_only_current());
    assert(s2.ticks_ok());
}

/// After the running process is re-enqueued at the tail, the cell
/// after the read cursor is occupied: the immediate redispatch has
/// somewhere to go.
pub proof fn lemma_q_rotate_mid(s0: Scheduler, s1: Scheduler)
    requires
        s0.len_ok(),
        s0.wf(),
        s0.nodup(),
        s0.q_shape(),
        s0.cursor_ok(),
        s0.dispatched(),
        s0.qlen() <= 7,
        s1.q@ == s0.q@.update(s0.sched_ptr as int, s0.q@[s0.current as int]),
        s1.current == s0.current,
    ensures
        s1.q@[wrap8(s0.current + 1)] != -1,
        0 <= s1.q@[wrap8(s0.current + 1)] < 8,
{
    let sp = s0.sched_ptr as int;
    let cur = s0.current as int;
    lemma_count_bounds(occ_pred(s0.q@), 8);
    assert(s0.cell_back(7) == sp);
    assert(!s0.occupied(sp));
    assert(cur != sp);
    // The head cell is occupied, so the queue is not empty: every
    // cell is `cell_back` of some age.
    assert(s0.qlen() >= 1) by {
        let t = if sp + 7 - cur < 8 { sp + 7 - cur } else { sp + 7 - cur - 8 };
        assert(0 <= t < 8);
        assert(s0.cell_back(t) == cur);
    }
    if wrap8(cur + 1) == sp {
        assert(s1.q@[sp] == s0.q@[cur]);
    } else {
        assert(s0.qlen() != 1) by {
            if s0.qlen() == 1 {
                assert(cur + 1 == sp || cur + 1 == sp + 8);
            }
        }
        lemma_q_next_occupied(s0);
        assert(s1.q@[wrap8(cur + 1)] == s0.q@[wrap8(cur + 1)]);
    }
}

/// The timer rotation: the running process is re-enqueued at the tail
/// and marked Ready (transiently standing in the queue twice), then
/// dispatch clears the head and selects the next queued process. The
/// scheduling invariant is restored and the queue keeps its length:
/// one full sweep still visits every queued slot once.
pub proof fn lemma_q_rotate(s0: Scheduler, s1: Scheduler, s2: Scheduler)
    requires
        s0.wf(),
        s0.nodup(),
        s0.q_shape(),
        s0.cursor_ok(),
        s0.states_ok(),
        s0.running_only_current(),
        s0.dispatched(),
        s0.qlen() <= 7,
        s1.proc_stat@ == s0.proc_stat@,
        s1.in_use == s0.in_use,
        s1.current == s0.current,
        s1.q@ == s0.q@.update(s0.sched_ptr as int, s0.q@[s0.current as int]),
        s1.sched_ptr == wrap8(s0.sched_ptr + 1),
        s1.procs@ == s0.procs@.update(
            s0.cur_slot(),
            Pcb { state: pcbs::ST_READY, ..s0.procs@[s0.cur_slot()] },
        ),
        s2.proc_stat@ == s1.proc_stat@,
        s2.in_use == s1.in_use,
        s2.sched_ptr == s1.sched_ptr,
        s2.q@ == s1.q@.update(s0.current as int, -1i8),
        s2.current == wrap8(s0.current + 1),
        s2.procs@ == s1.procs@.update(
            s1.q@[wrap8(s0.current + 1)] as int,
            Pcb {
                state: pcbs::ST_RUNNING,
                ticks: QUANTUM_STD,
                ..s1.procs@[s1.q@[wrap8(s0.current + 1)] as int]
            },
        ),
    ensures
        s2.q_inv(),
        s2.dispatched(),
        s2.qlen() == s0.qlen(),
        s2.cur_slot() == s1.q@[wrap8(s0.current + 1)] as int,
        s2.cur_slot() == (if wrap8(s0.current + 1) == s0.sched_ptr as int {
            s0.cur_slot()
        } else {
            s0.q@[wrap8(s0.current + 1)] as int
        }),
{
    let sp = s0.sched_ptr as int;
    let cur = s0.current as int;
    let c = s0.cur_slot();
    let nxt = wrap8(cur + 1);
    lemma_q_rotate_mid(s0, s1);
    let sel = s1.q@[nxt] as int;
    lemma_count_bounds(occ_pred(s0.q@), 8);
    assert(s0.cell_back(7) == sp);
    assert(!s0.occupied(sp));
    assert(cur != sp);
    assert(s0.qlen() >= 1) by {
        let t = if sp + 7 - cur < 8 { sp + 7 - cur } else { sp + 7 - cur - 8 };
        assert(0 <= t < 8);
        assert(s0.cell_back(t) == cur);
    }
    // Counting: one cell gained at the tail, one cleared at the head.
    lemma_count_update(occ_pred(s0.q@), occ_pred(s1.q@), 8, sp);
    lemma_count_update(occ_pred(s1.q@), occ_pred(s2.q@), 8, cur);
    assert(s2.qlen() == s0.qlen());
    // The head cell was the oldest.
    assert(s0.cell_back(s0.qlen() - 1) == cur);
    assert forall|t: int| 0 <= t < 8
        implies (s2.occupied(#[trigger] s2.cell_back(t)) <==> t < s2.qlen())
    by {
        if t == 0 {
            assert(s2.cell_back(0) == sp);
            assert(s2.q@[sp] == c as i8);
        } else {
            assert(s2.cell_back(t) == s0.cell_back(t - 1));
            if t == s0.qlen() {
                assert(s0.cell_back(t - 1) == cur);
                assert(s2.q@[cur] == -1);
            } else {
                assert(s0.cell_back(t - 1) != cur);
                assert(s0.cell_back(t - 1) != sp);
                assert(s2.q@[s0.cell_back(t - 1)] == s0.q@[s0.cell_back(t - 1)]);
                assert(s0.occupied(s0.cell_back(t - 1)) <==> t - 1 < s0.qlen());
            }
        }
    }
    assert(s2.occupied(s2.current as int)) by {
        assert(s2.cell_back(s2.qlen() - 1) == nxt);
    }
    if nxt == sp {
        assert(s2.q@[nxt] == c as i8);
        assert(sel == c);
        assert(s0.qlen() == 1);
    } else {
        assert(s2.q@[nxt] == s0.q@[nxt]);
        assert(sel == s0.q@[nxt] as int);
        assert(s0.occupied(nxt));
        assert(sel != c) by {
            assert(s0.q@[nxt] != s0.q@[cur]);
        }
    }
    assert(s2.cur_slot() == sel);
    assert(s2.wf());
    assert forall|j1: int, j2: int|
        0 <= j1 < 8 && 0 <= j2 < 8 && j1 != j2
            && #[trigger] s2.q@[j1] != -1 && #[trigger] s2.q@[j2] != -1
        implies s2.q@[j1] != s2.q@[j2]
    by {
        if j1 != sp && j2 != sp {
            assert(s2.q@[j1] == s0.q@[j1] && s2.q@[j2] == s0.q@[j2]);
        } else if j1 == sp {
            assert(s2.q@[j2] == s0.q@[j2]);
            assert(s0.q@[j2] != s0.q@[cur]);
        } else {
            assert(s2.q@[j1] == s0.q@[j1]);
            assert(s0.q@[j1] != s0.q@[cur]);
        }
    }
    assert(s2.cursor_ok());
    assert forall|j: int| 0 <= j < 8 && j != s2.current && #[trigger] s2.q@[j] != -1
        implies s2.procs@[s2.q@[j] as int].state == pcbs::ST_READY
    by {
        assert(j != cur);
        let v = s2.q@[j] as int;
        if j == sp {
            assert(v == c);
            if c == sel {
                assert(nxt == sp || s0.q@[nxt] != s0.q@[cur]);
                assert(nxt == sp);
                assert(false);
            }
            assert(s2.procs@[c] == s1.procs@[c]);
        } else {
            assert(s2.q@[j] == s0.q@[j]);
            assert(s0.procs@[v].state == pcbs::ST_READY);
            if v == c {
                assert(s0.q@[j] != s0.q@[cur]);
                assert(false);
            }
            if v == sel {
                assert(nxt == sp || s0.q@[j] != s0.q@[nxt]);
                assert(false);
            }
            assert(s2.procs@[v] == s0.procs@[v]);
        }
    }
    assert forall|i: int| 0 <= i < 8 && #[trigger] s2.proc_stat@[i] == 1
            && #[trigger] s2.procs@[i].state == pcbs::ST_RUNNING
        implies s2.occupied(s2.current as int) && s2.q@[s2.current as int] == i
    by {
        if i != sel {
            if i == c {
                assert(s2.procs@[c] == s1.procs@[c]);
                assert(false);
            } else {
                assert(s2.procs@[i] == s0.procs@[i]);
            }
        }
    }
    assert(s2.running_only_current());
    assert(s2.ticks_ok());
}

impl Scheduler {
    /// The three parallel tables have their fixed lengths and the two
    /// cursors are in range.
    pub open spec fn len_ok(self) -> bool {
        &&& self.proc_stat@.len() == 8
        &&& self.procs@.len() == 8
        &&& self.q@.len() == 8
        &&& self.current < 8
        &&& self.sched_ptr < 8
    }

    /// Slot `i` holds a process.
    pub open spec fn live(self, i: int) -> bool {
        0 <= i < 8 && self.proc_stat@[i] == 1
    }

    /// Queue cell `j` is occupied.
    pub open spec fn occupied(self, j: int) -> bool {
        self.q@[j] != -1
    }

    /// Number of live slots.
    pub open spec fn count_live(self) -> int {
        count_if(live_pred(self.proc_stat@), 8)
    }

    /// Number of occupied queue cells.
    pub open spec fn qlen(self) -> int {
        count_if(occ_pred(self.q@), 8)
    }

    /// Number of live processes other than `i` whose parent id is slot
    /// `i`'s process id: the children that slot `i` owns, zombies
    /// included.
    pub open spec fn count_children(self, i: int) -> int {
        count_if(child_pred(self.proc_stat@, self.procs@, i), 8)
    }

    /// Number of live processes in the Running state.
    pub open spec fn count_running(self) -> int {
        count_if(running_pred(self.proc_stat@, self.procs@), 8)
    }

    /// Structural well-formedness: lengths and cursors in range, the
    /// in-use flags boolean and counted by `in_use`, each live slot
    /// knowing its own index, and every occupied queue cell holding a
    /// live slot.
    pub open spec fn wf(self) -> bool {
        &&& self.len_ok()
        &&& forall|i: int| 0 <= i < 8
            ==> #[trigger] self.proc_stat@[i] == 0 || self.proc_stat@[i] == 1
        &&& forall|i: int| 0 <= i < 8 && #[trigger] self.proc_stat@[i] == 1
            ==> self.procs@[i].spot == i
        &&& forall|j: int| 0 <= j < 8 && #[trigger] self.q@[j] != -1
            ==> 0 <= self.q@[j] < 8 && self.proc_stat@[self.q@[j] as int] == 1
        &&& self.in_use == self.count_live()
    }

    /// No slot index appears in the ready queue twice.
    pub open spec fn nodup(self) -> bool {
        forall|j1: int, j2: int|
            0 <= j1 < 8 && 0 <= j2 < 8 && j1 != j2
                && #[trigger] self.q@[j1] != -1 && #[trigger] self.q@[j2] != -1
            ==> self.q@[j1] != self.q@[j2]
    }

    /// Queue cell holding the `t`-th newest element: `t` cells before
    /// the write cursor, cyclically.
    pub open spec fn cell_back(self, t: int) -> int {
        wrap8(self.sched_ptr + 7 - t)
    }

    /// The occupied cells are exactly the `qlen()` cells immediately
    /// before the write cursor: the queue is a contiguous circular
    /// segment ending where the next insertion writes.
    pub open spec fn q_shape(self) -> bool {
        forall|t: int| 0 <= t < 8
            ==> (self.occupied(#[trigger] self.cell_back(t)) <==> t < self.qlen())
    }

    /// The read cursor sits on the oldest occupied cell once a process
    /// has been dispatched, and one cell before the queue's start while
    /// none has.
    pub open spec fn cursor_ok(self) -> bool {
        if self.occupied(self.current as int) {
            self.current + self.qlen() == self.sched_ptr
                || self.current + self.qlen() == self.sched_ptr + 8
        } else {
            self.current + 1 + self.qlen() == self.sched_ptr
                || self.current + 1 + self.qlen() == self.sched_ptr + 8
        }
    }

    /// Queued processes are Ready, except the dispatched one at the
    /// read cursor, which is Running.
    pub open spec fn states_ok(self) -> bool {
        &&& forall|j: int| 0 <= j < 8 && j != self.current
                && #[trigger] self.q@[j] != -1
            ==> self.procs@[self.q@[j] as int].state == pcbs::ST_READY
        &&& self.occupied(self.current as int)
            ==> self.procs@[self.q@[self.current as int] as int].state == pcbs::ST_RUNNING
    }

    /// Only the dispatched process is Running.
    pub open spec fn running_only_current(self) -> bool {
        forall|i: int| 0 <= i < 8 && #[trigger] self.proc_stat@[i] == 1
                && #[trigger] self.procs@[i].state == pcbs::ST_RUNNING
            ==> self.occupied(self.current as int) && self.q@[self.current as int] == i
    }

    /// The dispatched process has quantum left and never more than
    /// the standard one: dispatch grants the full quantum, each timer
    /// tick takes one away, and the timer redispatches when it runs
    /// out.
    pub open spec fn ticks_ok(self) -> bool {
        self.occupied(self.current as int)
            ==> 1 <= self.procs@[self.q@[self.current as int] as int].ticks <= QUANTUM_STD
    }

    /// The scheduling invariant over table and queue together.
    pub open spec fn q_inv(self) -> bool {
        &&& self.wf()
        &&& self.nodup()
        &&& self.q_shape()
        &&& self.cursor_ok()
        &&& self.states_ok()
        &&& self.running_only_current()
        &&& self.ticks_ok()
    }

    /// A process has been dispatched and not yet torn down: the read
    /// cursor's cell names the Running process.
    pub open spec fn dispatched(self) -> bool {
        self.occupied(self.current as int)
    }

    /// Slot of the currently dispatched process.
    pub open spec fn cur_slot(self) -> int {
        self.q@[self.current as int] as int
    }

    /// Live processes have pairwise distinct ids.
    pub open spec fn pids_unique(self) -> bool {
        forall|i: int, j: int|
            0 <= i < 8 && 0 <= j < 8 && i != j
                && #[trigger] self.proc_stat@[i] == 1 && #[trigger] self.proc_stat@[j] == 1
            ==> self.procs@[i].pid != self.procs@[j].pid
    }

    /// Every live process's `children` field counts its live children,
    /// pending zombies included.
    pub open spec fn children_ok(self) -> bool {
        forall|i: int| 0 <= i < 8 && #[trigger] self.proc_stat@[i] == 1
            ==> self.procs@[i].children == self.count_children(i)
    }

    /// Slot 0 holds the init process: live, its own parent, never a
    /// zombie.
    pub open spec fn init_ok(self) -> bool {
        &&& self.live(0)
        &&& self.procs@[0].pid == pcbs::PID_INIT
        &&& self.procs@[0].ppid == pcbs::PID_INIT
        &&& self.procs@[0].state != pcbs::ST_ZOMBIE
    }

    /// Every live process other than init has a live parent.
    pub open spec fn parent_ok(self) -> bool {
        forall|i: int| 0 < i < 8 && #[trigger] self.proc_stat@[i] == 1
            ==> exists|j: int| 0 <= j < 8 && #[trigger] self.proc_stat@[j] == 1
                && self.procs@[j].pid == self.procs@[i].ppid
    }

    /// No live process but init is its own parent.
    pub open spec fn no_self_parent(self) -> bool {
        forall|i: int| 0 < i < 8 && #[trigger] self.proc_stat@[i] == 1
            ==> self.procs@[i].ppid != self.procs@[i].pid
    }

    /// Zombies own no children: death reparents them all to init.
    pub open spec fn zombies_childless(self) -> bool {
        forall|i: int| 0 <= i < 8 && #[trigger] self.proc_stat@[i] == 1
                && self.procs@[i].state == pcbs::ST_ZOMBIE
            ==> self.procs@[i].children == 0
    }

    /// Slot of the parent of the process at `ind`.
    pub open spec fn find_parent(self, ind: int) -> int {
        find_parent_at(self.proc_stat@, self.procs@, self.procs@[ind].ppid, 8)
    }

    /// The process table after the first `j` slots have been examined
    /// by the reparenting pass of process death: examined children of
    /// the dying process now name init as their parent, and the child
    /// counts of the dying process and of init have been adjusted for
    /// each of them.
    pub open spec fn bite_mid_upto(self, ind: int, j: int) -> Seq<Pcb> {
        let moved = count_if(child_pred(self.proc_stat@, self.procs@, ind), j);
        Seq::new(8, |i: int|
            if i == ind {
                Pcb {
                    children: (self.procs@[ind].children - moved) as u16,
                    ..self.procs@[i]
                }
            } else if i == 0 {
                Pcb {
                    children: (self.procs@[0].children + moved) as u16,
                    ..self.procs@[i]
                }
            } else if i < j && self.proc_stat@[i] == 1
                && self.procs@[i].ppid == self.procs@[ind].pid {
                Pcb { ppid: pcbs::PID_INIT, ..self.procs@[i] }
            } else {
                self.procs@[i]
            },
        )
    }

    /// The process table after the whole reparenting pass.
    pub open spec fn bite_mid(self, ind: int) -> Seq<Pcb> {
        self.bite_mid_upto(ind, 8)
    }

    /// A fresh scheduler: empty table, empty queue, write cursor at
    /// cell 0 and read cursor one cell behind it.
    pub fn new() -> (r: Scheduler)
        ensures
            r.q_inv(),
            !r.dispatched(),
            r.in_use == 0,
            r.qlen() == 0,
            r.current == 7,
            r.sched_ptr == 0,
            forall|i: int| 0 <= i < 8 ==> !r.live(i),
            forall|i: int| 0 <= i < 8 ==> r.procs@[i] == Pcb::spec_empty(),
    {
        let mut proc_stat: Vec<u8> = Vec::new();
        let mut procs: Vec<Pcb> = Vec::new();
        let mut q: Vec<i8> = Vec::new();
        let mut i: usize = 0;
        while i < 8
            invariant
                i <= 8,
                proc_stat@.len() == i,
                procs@.len() == i,
                q@.len() == i,
                forall|k: int| 0 <= k < i ==> proc_stat@[k] == 0,
                forall|k: int| 0 <= k < i ==> procs@[k] == Pcb::spec_empty(),
                forall|k: int| 0 <= k < i ==> q@[k] == -1,
            decreases 8 - i,
        {
            proc_stat.push(0);
            procs.push(Pcb::empty());
            q.push(-1);
            i = i + 1;
        }
        let r = Scheduler {
            proc_stat,
            procs,
            q,
            in_use: 0,
            current: NUM_PROC - 1,
            sched_ptr: 0,
        };
        proof {
            lemma_count_none(live_pred(r.proc_stat@), 8);
            lemma_count_none(occ_pred(r.q@), 8);
        }
        r
    }

    /// Removes all processes from the ready queue.
    pub fn _clear_sched(&mut self)
        requires
            old(self).len_ok(),
        ensures
            final(self).q@ =~= Seq::new(8, |j: int| -1i8),
            final(self).proc_stat == old(self).proc_stat,
            final(self).procs == old(self).procs,
            final(self).in_use == old(self).in_use,
            final(self).current == old(self).current,
            final(self).sched_ptr == old(self).sched_ptr,
    {
        let mut i: usize = 0;
        while i < 8
            invariant
                i <= 8,
                self.q@.len() == 8,
                forall|k: int| 0 <= k < i ==> self.q@[k] == -1,
                self.proc_stat == old(self).proc_stat,
                self.procs == old(self).procs,
                self.in_use == old(self).in_use,
                self.current == old(self).current,
                self.sched_ptr == old(self).sched_ptr,
            decreases 8 - i,
        {
            self.q.set(i, -1);
            i = i + 1;
        }
    }

    /// Tells the caller how many processes are in the table.
    pub fn get_in_use(&self) -> (r: u8)
        ensures
            r == self.in_use,
    {
        self.in_use
    }

    /// Gets the pid of the process at the given slot.
    pub fn get_pid(&self, ind: i8) -> (r: u16)
        requires
            self.len_ok(),
            0 <= ind < 8,
        ensures
            r == self.procs@[ind as int].pid,
    {
        self.procs[ind as usize].pid
    }

    /// Copy of the process control block at the given slot.
    pub fn get_pcb(&self, ind: usize) -> (r: Pcb)
        requires
            self.len_ok(),
            ind < 8,
        ensures
            r == self.procs@[ind as int],
    {
        self.procs[ind]
    }

    /// Slot of the currently dispatched process.
    pub fn get_curr(&self) -> (ind: usize)
        requires
            self.len_ok(),
            self.dispatched(),
            0 <= self.q@[self.current as int] < 8,
        ensures
            ind == self.cur_slot(),
    {
        self.q[self.current as usize] as usize
    }

    /// Address of the dispatched process's saved context: what the
    /// restore trampoline loads on interrupt return.
    pub fn get_curr_cxt(&self) -> (r: u64)
        requires
            self.len_ok(),
            self.dispatched(),
            0 <= self.q@[self.current as int] < 8,
        ensures
            r == self.procs@[self.cur_slot()].cxt,
    {
        let ind = self.q[self.current as usize] as usize;
        self.procs[ind].cxt
    }

    /// Replaces the dispatched process's saved-context address: the
    /// seam the interrupt-entry trampoline uses after pushing a fresh
    /// context onto the process's stack.
    pub fn set_curr_cxt(&mut self, rsp: u64)
        requires
            old(self).len_ok(),
            old(self).dispatched(),
            0 <= old(self).q@[old(self).current as int] < 8,
        ensures
            final(self).procs@ == old(self).procs@.update(
                old(self).cur_slot(),
                Pcb { cxt: rsp, ..old(self).procs@[old(self).cur_slot()] },
            ),
            final(self).proc_stat == old(self).proc_stat,
            final(self).q == old(self).q,
            final(self).in_use == old(self).in_use,
            final(self).current == old(self).current,
            final(self).sched_ptr == old(self).sched_ptr,
    {
        let ind = self.q[self.current as usize] as usize;
        let p = self.procs[ind];
        self.procs.set(ind, Pcb { cxt: rsp, ..p });
    }

    /// The ready-queue insertion guard: the write cell is free and the
    /// process is neither Waiting nor a Zombie.
    pub open spec fn can_enqueue(self, ind: int) -> bool {
        &&& self.q@[self.sched_ptr as int] == -1
        &&& self.procs@[ind].state != pcbs::ST_WAITING
        &&& self.procs@[ind].state != pcbs::ST_ZOMBIE
    }

    /// Schedules a process to run, as long as it is ready: appends the
    /// slot at the write cursor and marks the process Ready, or does
    /// nothing if the write cell is taken or the process is Waiting or
    /// a Zombie.
    pub fn _schedule(&mut self, ind: i8)
        requires
            old(self).len_ok(),
            0 <= ind < 8,
        ensures
            old(self).can_enqueue(ind as int) ==> {
                &&& final(self).q@ == old(self).q@.update(old(self).sched_ptr as int, ind)
                &&& final(self).sched_ptr == wrap8(old(self).sched_ptr + 1)
                &&& final(self).procs@ == old(self).procs@.update(
                    ind as int,
                    Pcb { state: pcbs::ST_READY, ..old(self).procs@[ind as int] },
                )
            },
            !old(self).can_enqueue(ind as int) ==> *final(self) == *old(self),
            final(self).proc_stat == old(self).proc_stat,
            final(self).in_use == old(self).in_use,
            final(self).current == old(self).current,
            final(self).len_ok(),
    {
        if self.q[self.sched_ptr as usize] == -1
            && self.procs[ind as usize].state != pcbs::ST_WAITING
            && self.procs[ind as usize].state != pcbs::ST_ZOMBIE
        {
            let p = self.procs[ind as usize];
            self.procs.set(ind as usize, Pcb { state: pcbs::ST_READY, ..p });
            self.q.set(self.sched_ptr as usize, ind);
            self.sched_ptr = (self.sched_ptr + 1) % NUM_PROC;
        }
    }

    /// Gives the next scheduled process the CPU: clears the read
    /// cursor's cell, advances the cursor one cell, and marks the
    /// process found there Running with a fresh quantum. Selection
    /// only: the caller resumes the selected context afterwards.
    pub fn _dispatch(&mut self)
        requires
            old(self).len_ok(),
            old(self).q@[wrap8(old(self).current + 1)] != -1,
            0 <= old(self).q@[wrap8(old(self).current + 1)] < 8,
        ensures
            final(self).current == wrap8(old(self).current + 1),
            final(self).q@ == old(self).q@.update(old(self).current as int, -1i8),
            final(self).procs@ == old(self).procs@.update(
                old(self).q@[wrap8(old(self).current + 1)] as int,
                Pcb {
                    state: pcbs::ST_RUNNING,
                    ticks: QUANTUM_STD,
                    ..old(self).procs@[old(self).q@[wrap8(old(self).current + 1)] as int]
                },
            ),
            final(self).proc_stat == old(self).proc_stat,
            final(self).in_use == old(self).in_use,
            final(self).sched_ptr == old(self).sched_ptr,
            final(self).len_ok(),
            final(self).dispatched(),
            final(self).cur_slot() == old(self).q@[wrap8(old(self).current + 1)] as int,
            final(self).procs@[final(self).cur_slot()].ticks == QUANTUM_STD,
            final(self).procs@[final(self).cur_slot()].state == pcbs::ST_RUNNING,
    {
        self.q.set(self.current as usize, -1);
        self.current = (self.current + 1) % NUM_PROC;

        let ind = self.q[self.current as usize] as usize;
        let p = self.procs[ind];
        self.procs.set(ind, Pcb { state: pcbs::ST_RUNNING, ticks: QUANTUM_STD, ..p });
    }

    /// The process control block that admission installs.
    pub open spec fn admitted_pcb(
        self, next: int, cxt: u64, stk: u64, event: u32, extst: u32,
        pid: u16, ppid: u16, children: u16,
    ) -> Pcb {
        Pcb {
            cxt,
            stack: stk,
            event,
            exitstatus: extst,
            pid,
            ppid,
            children,
            state: pcbs::ST_READY,
            ticks: self.procs@[next].ticks,
            spot: next as i8,
        }
    }

    /// Adds a process to the table: finds the lowest free slot (slot 0
    /// is taken only by the first admission), marks it in use, installs
    /// the supplied context and stack addresses and identity fields,
    /// and sets the state Ready. Fails, returning `NO_SLOT` and leaving
    /// the table unchanged, when the admission cap is reached: at most
    /// 7 of the 8 slots are usable at once, slot 0 being reserved for
    /// the init process by the first admission.
    pub fn _add_proc(&mut self, cxt: u64, stk: u64, event: u32, extst: u32,
                     pid: u16, ppid: u16, children: u16) -> (next: usize)
        requires
            old(self).wf(),
        ensures
            final(self).wf(),
            final(self).q == old(self).q,
            final(self).current == old(self).current,
            final(self).sched_ptr == old(self).sched_ptr,
            old(self).in_use >= 7 ==> next == NO_SLOT as int && *final(self) == *old(self),
            old(self).in_use < 7 ==> {
                &&& 0 <= next < 8
                &&& !old(self).live(next as int)
                &&& (old(self).in_use == 0 <==> next == 0)
                &&& (forall|i: int| 1 <= i < next ==> old(self).live(i))
                &&& final(self).proc_stat@ == old(self).proc_stat@.update(next as int, 1u8)
                &&& final(self).procs@ == old(self).procs@.update(
                    next as int,
                    old(self).admitted_pcb(next as int, cxt, stk, event, extst, pid, ppid, children),
                )
                &&& final(self).in_use == old(self).in_use + 1
            },
    {
        proof {
            lemma_count_bounds(live_pred(self.proc_stat@), 8);
        }
        if self.in_use >= 7 {
            return NO_SLOT as usize;
        }
        let mut next: usize = 0;
        // First process: the init slot.
        if self.in_use == 0 {
            next = 0;
            proof {
                if old(self).live(0) {
                    lemma_count_ge_one(live_pred(old(self).proc_stat@), 8, 0);
                }
            }
        }
        // Find an empty slot in the table.
        else {
            let mut i: usize = 1;
            while i < 8 && self.proc_stat[i] != 0
                invariant
                    1 <= i <= 8,
                    self == old(self),
                    old(self).wf(),
                    forall|k: int| 1 <= k < i ==> old(self).live(k),
                decreases 8 - i,
            {
                i = i + 1;
            }
            proof {
                if i == 8 {
                    assert forall|k: int| 1 <= k < 8
                        implies #[trigger] live_pred(self.proc_stat@)(k)
                    by {
                        assert(old(self).live(k));
                    }
                    lemma_count_range_true(live_pred(self.proc_stat@), 1, 8);
                    lemma_count_bounds(live_pred(self.proc_stat@), 1);
                    assert(false);
                }
            }
            next = i;
        }
        self.in_use = self.in_use + 1;

        // Install the context and stack addresses and the rest of the
        // process's identity, and mark it admitted.
        let p = self.procs[next];
        self.procs.set(next, Pcb {
            cxt,
            stack: stk,
            event,
            exitstatus: extst,
            pid,
            ppid,
            children,
            state: pcbs::ST_READY,
            ticks: p.ticks,
            spot: next as i8,
        });
        self.proc_stat.set(next, 1);
        proof {
            assert forall|i: int| 0 <= i < 8 && i != next as int
                implies #[trigger] live_pred(old(self).proc_stat@)(i)
                    == #[trigger] live_pred(self.proc_stat@)(i)
            by {
                assert(self.proc_stat@[i] == old(self).proc_stat@[i]);
            }
            lemma_count_update(
                live_pred(old(self).proc_stat@),
                live_pred(self.proc_stat@),
                8,
                next as int,
            );
            assert(live_pred(self.proc_stat@)(next as int));
            assert(!live_pred(old(self).proc_stat@)(next as int));
        }
        next
    }

    /// Lowest slot at or above `n` holding a Zombie whose parent id is
    /// `ppid`, or `NO_SLOT` if there is none.
    pub open spec fn fz_from(self, ppid: u16, n: int) -> int
        decreases 8 - n,
    {
        if n < 0 || n >= 8 {
            NO_SLOT as int
        } else if self.procs@[n].ppid == ppid && self.procs@[n].state == pcbs::ST_ZOMBIE {
            n
        } else {
            self.fz_from(ppid, n + 1)
        }
    }

    /// Where some slot at or above `n` holds a Zombie child of `ppid`,
    /// the zombie scan finds one.
    pub proof fn lemma_fz_finds(self, ppid: u16, n: int)
        requires
            0 <= n <= 8,
            exists|j: int| n <= j < 8 && #[trigger] self.procs@[j].ppid == ppid
                && self.procs@[j].state == pcbs::ST_ZOMBIE,
        ensures
            0 <= self.fz_from(ppid, n) < 8,
            self.procs@[self.fz_from(ppid, n)].ppid == ppid,
            self.procs@[self.fz_from(ppid, n)].state == pcbs::ST_ZOMBIE,
        decreases 8 - n,
    {
        if !(self.procs@[n].ppid == ppid && self.procs@[n].state == pcbs::ST_ZOMBIE) {
            let j = choose|j: int| n <= j < 8 && #[trigger] self.procs@[j].ppid == ppid
                && self.procs@[j].state == pcbs::ST_ZOMBIE;
            assert(j >= n + 1);
            self.lemma_fz_finds(ppid, n + 1);
        }
    }

    /// Finds a Zombie child of the given parent id: the lowest-indexed
    /// slot holding one, or `NO_SLOT` if there is none.
    pub fn find_zombie(&self, ppid: u16) -> (ret: i8)
        requires
            self.len_ok(),
        ensures
            ret == self.fz_from(ppid, 0),
            ret == NO_SLOT as int ==> forall|i: int| 0 <= i < 8
                ==> !(#[trigger] self.procs@[i].ppid == ppid
                      && self.procs@[i].state == pcbs::ST_ZOMBIE),
            ret != NO_SLOT as int ==> {
                &&& 0 <= ret < 8
                &&& self.procs@[ret as int].ppid == ppid
                &&& self.procs@[ret as int].state == pcbs::ST_ZOMBIE
                &&& forall|i: int| 0 <= i < ret
                    ==> !(#[trigger] self.procs@[i].ppid == ppid
                          && self.procs@[i].state == pcbs::ST_ZOMBIE)
            },
    {
        let mut ret: i8 = NO_SLOT as i8;
        let mut i: usize = 0;
        while i < 8
            invariant_except_break
                ret == NO_SLOT as int,
                self.fz_from(ppid, 0) == self.fz_from(ppid, i as int),
            invariant
                i <= 8,
                self.len_ok(),
                forall|k: int| 0 <= k < i
                    ==> !(#[trigger] self.procs@[k].ppid == ppid
                          && self.procs@[k].state == pcbs::ST_ZOMBIE),
            ensures
                ret == self.fz_from(ppid, 0),
                (ret == NO_SLOT as int && i == 8) || {
                    &&& i < 8
                    &&& ret == i
                    &&& self.procs@[i as int].ppid == ppid
                    &&& self.procs@[i as int].state == pcbs::ST_ZOMBIE
                    &&& forall|k: int| 0 <= k < i
                        ==> !(#[trigger] self.procs@[k].ppid == ppid
                              && self.procs@[k].state == pcbs::ST_ZOMBIE)
                },
            decreases 8 - i,
        {
            if self.procs[i].ppid == ppid && self.procs[i].state == pcbs::ST_ZOMBIE {
                ret = i as i8;
                break;
            }
            i = i + 1;
        }
        ret
    }

    /// Whether some slot holds a Zombie child of the given parent id.
    pub open spec fn has_zombie_child(self, ppid: u16) -> bool {
        exists|i: int| 0 <= i < 8 && #[trigger] self.procs@[i].ppid == ppid
            && self.procs@[i].state == pcbs::ST_ZOMBIE
    }

    /// Cleans up a process: marks its slot Unused and free. The
    /// backing stack is never reclaimed; the allocator of this kernel
    /// has no free path.
    pub fn rem_pcb(&mut self, ind: i8)
        requires
            old(self).wf(),
            0 <= ind < 8,
            old(self).live(ind as int),
        ensures
            final(self).proc_stat@ == old(self).proc_stat@.update(ind as int, 0u8),
            final(self).procs@ == old(self).procs@.update(
                ind as int,
                Pcb { state: pcbs::ST_UNUSED, ..old(self).procs@[ind as int] },
            ),
            final(self).in_use == old(self).in_use - 1,
            final(self).q == old(self).q,
            final(self).current == old(self).current,
            final(self).sched_ptr == old(self).sched_ptr,
            final(self).wf() <== (forall|j: int| 0 <= j < 8 ==> #[trigger] old(self).q@[j] != ind),
    {
        proof {
            lemma_count_bounds(live_pred(self.proc_stat@), 8);
            lemma_count_ge_one(live_pred(self.proc_stat@), 8, ind as int);
        }
        self.proc_stat.set(ind as usize, 0);
        let p = self.procs[ind as usize];
        self.procs.set(ind as usize, Pcb { state: pcbs::ST_UNUSED, ..p });
        self.in_use = self.in_use - 1;
        proof {
            lemma_count_update(
                live_pred(old(self).proc_stat@),
                live_pred(self.proc_stat@),
                8,
                ind as int,
            );
        }
    }

    /// After death handling, every live process's `children` field
    /// still counts its children. `self` is the post state, `pre` the
    /// state at entry, `ind` the dying slot and `p` its parent's slot;
    /// `waiting` tells whether the parent was parked in wait, so that
    /// the dying slot was reclaimed and the parent's count dropped.
    proof fn lemma_bite_children(self, pre: Scheduler, ind: int, p: int, waiting: bool)
        requires
            pre.wf(),
            pre.pids_unique(),
            pre.children_ok(),
            pre.init_ok(),
            0 <= ind < 8,
            pre.live(ind),
            pre.procs@[ind].pid != pre.procs@[ind].ppid,
            pre.procs@[ind].pid != pcbs::PID_INIT,
            0 <= p < 8,
            pre.live(p),
            p != ind,
            pre.procs@[p].pid == pre.procs@[ind].ppid,
            self.proc_stat@ == if waiting {
                pre.proc_stat@.update(ind, 0u8)
            } else {
                pre.proc_stat@
            },
            self.procs@.len() == 8,
            forall|j: int| 0 <= j < 8
                ==> #[trigger] self.procs@[j].pid == pre.procs@[j].pid,
            forall|j: int| 0 <= j < 8
                ==> #[trigger] self.procs@[j].ppid == (
                    if j != ind && pre.proc_stat@[j] == 1
                        && pre.procs@[j].ppid == pre.procs@[ind].pid {
                        pcbs::PID_INIT
                    } else {
                        pre.procs@[j].ppid
                    }),
            self.procs@[ind].children == 0,
            p == 0 ==> self.procs@[0].children
                == pre.procs@[0].children + pre.count_children(ind)
                    - (if waiting { 1int } else { 0int }),
            p != 0 ==> {
                &&& self.procs@[0].children
                    == pre.procs@[0].children + pre.count_children(ind)
                &&& self.procs@[p].children
                    == pre.procs@[p].children - (if waiting { 1int } else { 0int })
            },
            forall|i: int| 0 <= i < 8 && i != ind && i != 0 && i != p
                ==> #[trigger] self.procs@[i].children == pre.procs@[i].children,
        ensures
            self.children_ok(),
    {
        let k = pre.count_children(ind);
        let fpre_ind = child_pred(pre.proc_stat@, pre.procs@, ind);
        assert forall|i: int| 0 <= i < 8 && #[trigger] self.proc_stat@[i] == 1
            implies self.procs@[i].children == self.count_children(i)
        by {
            let f2 = child_pred(self.proc_stat@, self.procs@, i);
            let fm = child_pred(pre.proc_stat@, self.procs@, i);
            // Relate the count over the post in-use flags to the count
            // over the pre flags: only the dying slot may differ.
            if waiting {
                assert forall|u: int| 0 <= u < 8 && u != ind
                    implies #[trigger] f2(u) == #[trigger] fm(u)
                by {
                    assert(self.proc_stat@[u] == pre.proc_stat@[u]);
                }
                lemma_count_update(f2, fm, 8, ind);
                assert(!f2(ind));
                assert(i != ind);
                // The dying process counts toward `i` over the pre
                // flags exactly when `i` is its parent.
                if i == p {
                    assert(fm(ind));
                } else {
                    assert(self.procs@[ind].ppid == pre.procs@[p].pid);
                    if fm(ind) {
                        assert(pre.procs@[p].pid == pre.procs@[i].pid);
                        assert(false);
                    }
                }
            } else {
                lemma_count_agree(f2, fm, 8);
            }
            // Relate the count over the post table to the pre counts.
            if i == ind {
                assert forall|u: int| 0 <= u < 8 implies !(#[trigger] fm(u)) by {
                    if fm(u) {
                        assert(self.procs@[u].ppid == pre.procs@[ind].pid);
                        if pre.procs@[u].ppid == pre.procs@[ind].pid && u != ind
                            && pre.proc_stat@[u] == 1 {
                            assert(self.procs@[u].ppid == pcbs::PID_INIT);
                            assert(false);
                        } else {
                            assert(self.procs@[u].ppid == pre.procs@[u].ppid);
                            assert(false);
                        }
                    }
                }
                lemma_count_none(fm, 8);
            } else if i == 0 {
                assert forall|u: int| 0 <= u < 8
                    implies #[trigger] fm(u)
                        == (#[trigger] child_pred(pre.proc_stat@, pre.procs@, 0)(u)
                            || #[trigger] fpre_ind(u))
                by {
                    assert(self.procs@[0].pid == pre.procs@[0].pid);
                    if u != ind && pre.proc_stat@[u] == 1
                        && pre.procs@[u].ppid == pre.procs@[ind].pid {
                        assert(self.procs@[u].ppid == pcbs::PID_INIT);
                        assert(u != 0);
                    } else {
                        assert(self.procs@[u].ppid == pre.procs@[u].ppid);
                        if u == ind && pre.proc_stat@[u] == 1 {
                            assert(pre.procs@[ind].ppid == pre.procs@[p].pid);
                            assert((pre.procs@[ind].ppid == pcbs::PID_INIT) == (p == 0));
                        }
                    }
                }
                assert forall|u: int| 0 <= u < 8
                    implies !(#[trigger] child_pred(pre.proc_stat@, pre.procs@, 0)(u)
                        && #[trigger] fpre_ind(u))
                by {}
                lemma_count_split(
                    child_pred(pre.proc_stat@, pre.procs@, 0), fpre_ind, fm, 8,
                );
                assert(pre.procs@[0].children == pre.count_children(0));
            } else if i == p {
                assert forall|u: int| 0 <= u < 8
                    implies #[trigger] fm(u)
                        == #[trigger] child_pred(pre.proc_stat@, pre.procs@, p)(u)
                by {
                    assert(self.procs@[p].pid == pre.procs@[p].pid);
                    if u != ind && pre.proc_stat@[u] == 1
                        && pre.procs@[u].ppid == pre.procs@[ind].pid {
                        assert(self.procs@[u].ppid == pcbs::PID_INIT);
                        assert(pre.procs@[p].pid != pcbs::PID_INIT);
                        assert(pre.procs@[u].ppid != pre.procs@[p].pid);
                    } else {
                        assert(self.procs@[u].ppid == pre.procs@[u].ppid);
                    }
                }
                lemma_count_agree(fm, child_pred(pre.proc_stat@, pre.procs@, p), 8);
                assert(pre.procs@[p].children == pre.count_children(p));
                if waiting {
                    lemma_count_ge_one(child_pred(pre.proc_stat@, pre.procs@, p), 8, ind);
                }
            } else {
                assert forall|u: int| 0 <= u < 8
                    implies #[trigger] fm(u)
                        == #[trigger] child_pred(pre.proc_stat@, pre.procs@, i)(u)
                by {
                    assert(self.procs@[i].pid == pre.procs@[i].pid);
                    if u != ind && pre.proc_stat@[u] == 1
                        && pre.procs@[u].ppid == pre.procs@[ind].pid {
                        assert(self.procs@[u].ppid == pcbs::PID_INIT);
                        assert(pre.procs@[i].pid != pcbs::PID_INIT);
                        assert(pre.procs@[i].pid != pre.procs@[ind].pid);
                    } else {
                        assert(self.procs@[u].ppid == pre.procs@[u].ppid);
                    }
                }
                lemma_count_agree(fm, child_pred(pre.proc_stat@, pre.procs@, i), 8);
                assert(pre.procs@[i].children == pre.count_children(i));
            }
        }
    }

    /// Death handling with the parent not waiting leaves the table
    /// consistent: the dying process is a childless Zombie and every
    /// count still adds up.
    proof fn lemma_bite_post_zombie(self, pre: Scheduler, ind: int, p: int)
        requires
            pre.wf(),
            pre.pids_unique(),
            pre.children_ok(),
            pre.init_ok(),
            pre.zombies_childless(),
            0 <= ind < 8,
            pre.live(ind),
            pre.procs@[ind].pid != pre.procs@[ind].ppid,
            pre.procs@[ind].pid != pcbs::PID_INIT,
            0 <= p < 8,
            pre.live(p),
            pre.procs@[p].pid == pre.procs@[ind].ppid,
            pre.procs@[p].state != pcbs::ST_WAITING,
            self.proc_stat@ == pre.proc_stat@,
            self.procs@ == pre.bite_mid(ind).update(
                ind,
                Pcb { state: pcbs::ST_ZOMBIE, ..pre.bite_mid(ind)[ind] },
            ),
        ensures
            self.children_ok(),
            self.zombies_childless(),
            self.pids_unique(),
            p != ind,
    {
        let mid = pre.bite_mid(ind);
        let k = pre.count_children(ind);
        assert(p != ind);
        assert(ind != 0);
        lemma_count_bounds(child_pred(pre.proc_stat@, pre.procs@, ind), 8);
        lemma_count_bounds(child_pred(pre.proc_stat@, pre.procs@, 0), 8);
        assert(pre.procs@[ind].children == k);
        assert(pre.procs@[0].children == pre.count_children(0));
        assert forall|j: int| 0 <= j < 8
            implies #[trigger] self.procs@[j].pid == pre.procs@[j].pid by {
            assert(mid[j].pid == pre.procs@[j].pid);
        }
        self.lemma_bite_children(pre, ind, p, false);
        assert forall|i: int| 0 <= i < 8 && #[trigger] self.proc_stat@[i] == 1
                && self.procs@[i].state == pcbs::ST_ZOMBIE
            implies self.procs@[i].children == 0
        by {
            if i != ind {
                assert(self.procs@[i] == mid[i]);
                assert(self.procs@[i].state == pre.procs@[i].state);
                if i == 0 {
                    assert(pre.procs@[0].state != pcbs::ST_ZOMBIE);
                } else {
                    assert(self.procs@[i].children == pre.procs@[i].children);
                }
            }
        }
    }

    /// Death handling with the parent parked in wait leaves the table
    /// consistent: the dying slot is free, the parent woken, and every
    /// count still adds up.
    proof fn lemma_bite_post_waiting(self, pre: Scheduler, ind: int, p: int)
        requires
            pre.wf(),
            pre.pids_unique(),
            pre.children_ok(),
            pre.init_ok(),
            pre.zombies_childless(),
            0 <= ind < 8,
            pre.live(ind),
            pre.procs@[ind].pid != pre.procs@[ind].ppid,
            pre.procs@[ind].pid != pcbs::PID_INIT,
            0 <= p < 8,
            pre.live(p),
            p != ind,
            pre.procs@[p].pid == pre.procs@[ind].ppid,
            pre.procs@[p].state == pcbs::ST_WAITING,
            self.proc_stat@ == pre.proc_stat@.update(ind, 0u8),
            self.procs@ == pre.bite_mid(ind).update(p, Pcb {
                state: pcbs::ST_READY,
                children: (pre.bite_mid(ind)[p].children - 1) as u16,
                ..pre.bite_mid(ind)[p]
            }),
            pre.bite_mid(ind)[p].children >= 1,
        ensures
            self.children_ok(),
            self.zombies_childless(),
            self.pids_unique(),
    {
        let mid = pre.bite_mid(ind);
        let k = pre.count_children(ind);
        assert(ind != 0);
        lemma_count_bounds(child_pred(pre.proc_stat@, pre.procs@, ind), 8);
        lemma_count_bounds(child_pred(pre.proc_stat@, pre.procs@, 0), 8);
        assert(pre.procs@[ind].children == k);
        assert(pre.procs@[0].children == pre.count_children(0));
        assert(p != ind);
        assert forall|j: int| 0 <= j < 8
            implies #[trigger] self.procs@[j].pid == pre.procs@[j].pid by {
            assert(mid[j].pid == pre.procs@[j].pid);
        }
        self.lemma_bite_children(pre, ind, p, true);
        assert forall|i: int| 0 <= i < 8 && #[trigger] self.proc_stat@[i] == 1
                && self.procs@[i].state == pcbs::ST_ZOMBIE
            implies self.procs@[i].children == 0
        by {
            assert(i != ind);
            if i == p {
                assert(self.procs@[p].state == pcbs::ST_READY);
            } else {
                assert(self.procs@[i] == mid[i]);
                assert(self.procs@[i].state == pre.procs@[i].state);
                if i == 0 {
                    assert(pre.procs@[0].state != pcbs::ST_ZOMBIE);
                }
            }
        }
    }

    /// Handles the death of the process at slot `ind`. Its children,
    /// zombies included, are reparented to the init process, the child
    /// counts moving with them. Then the parent is located by a pid
    /// scan: if the parent is Waiting, the dying process's pid is
    /// handed into the parent's saved return-value register, the
    /// parent is made Ready and re-enqueued, and the dying slot is
    /// reclaimed at once, no Zombie state intervening; otherwise the
    /// dying process becomes a Zombie and keeps its slot until its
    /// parent calls wait.
    #[verifier::rlimit(60)]
    pub fn bite(&mut self, pool: &mut StackPool, ind: i8)
        requires
            old(self).wf(),
            old(self).pids_unique(),
            old(self).children_ok(),
            old(self).init_ok(),
            old(self).zombies_childless(),
            0 <= ind < 8,
            old(self).live(ind as int),
            old(self).procs@[ind as int].pid != old(self).procs@[ind as int].ppid,
            old(self).procs@[ind as int].pid != pcbs::PID_INIT,
            exists|j: int| 0 <= j < 8 && #[trigger] old(self).proc_stat@[j] == 1
                && old(self).procs@[j].pid == old(self).procs@[ind as int].ppid,
            old(pool).wf(),
            forall|i: int| 0 <= i < 8 && #[trigger] old(self).proc_stat@[i] == 1
                ==> old(pool).cxt_ok(old(self).procs@[i].cxt, old(self).procs@[i].stack),
        ensures
            final(self).current == old(self).current,
            final(self).procs@.len() == 8,
            final(self).proc_stat@.len() == 8,
            final(self).q@.len() == 8,
            final(self).children_ok(),
            final(self).zombies_childless(),
            final(self).pids_unique(),
            final(pool).wf(),
            final(pool).spec_base() == old(pool).spec_base(),
            final(pool).spec_exit_point() == old(pool).spec_exit_point(),
            final(pool).words().len() == old(pool).words().len(),
            ({
                let pre = *old(self);
                let mid = pre.bite_mid(ind as int);
                let p = pre.find_parent(ind as int);
                &&& 0 <= p < 8
                &&& pre.live(p)
                &&& pre.procs@[p].pid == pre.procs@[ind as int].ppid
                &&& p != ind as int
                &&& if pre.procs@[p].state == pcbs::ST_WAITING {
                    &&& final(self).procs@ == mid.update(p, Pcb {
                            state: pcbs::ST_READY,
                            children: (mid[p].children - 1) as u16,
                            ..mid[p]
                        })
                    &&& final(self).proc_stat@ == pre.proc_stat@.update(ind as int, 0u8)
                    &&& final(self).in_use == pre.in_use - 1
                    &&& (pre.q@[pre.sched_ptr as int] == -1 ==> {
                        &&& final(self).q@ == pre.q@.update(pre.sched_ptr as int, p as i8)
                        &&& final(self).sched_ptr == wrap8(pre.sched_ptr + 1)
                    })
                    &&& (pre.q@[pre.sched_ptr as int] != -1 ==> {
                        &&& final(self).q == pre.q
                        &&& final(self).sched_ptr == pre.sched_ptr
                    })
                    &&& final(pool).words() == old(pool).words().update(
                        old(pool).word_at(pre.procs@[p].cxt) + CXT_RAX as int,
                        pre.procs@[ind as int].pid as u64,
                    )
                } else {
                    &&& final(self).procs@ == mid.update(ind as int, Pcb {
                            state: pcbs::ST_ZOMBIE, ..mid[ind as int] })
                    &&& final(self).proc_stat == pre.proc_stat
                    &&& final(self).q == pre.q
                    &&& final(self).sched_ptr == pre.sched_ptr
                    &&& final(self).in_use == pre.in_use
                    &&& final(pool).words() == old(pool).words()
                }
            }),
    {
        let ghost pre = *old(self);
        let ghost matchf = child_pred(pre.proc_stat@, pre.procs@, ind as int);
        let ghost k = pre.count_children(ind as int);
        proof {
            lemma_count_bounds(matchf, 8);
            assert(pre.procs@[ind as int].children == k);
            assert(pre.procs@[0].children == pre.count_children(0));
            lemma_count_bounds(child_pred(pre.proc_stat@, pre.procs@, 0), 8);
        }

        let dying_pid = self.procs[ind as usize].pid;
        proof {
            assert(self.procs@ =~= pre.bite_mid_upto(ind as int, 0));
        }

        // Reparent the dying process's children to init.
        if self.procs[ind as usize].children > 0 {
            let mut i: usize = 0;
            while i < 8
                invariant
                    i <= 8,
                    pre == *old(self),
                    0 <= ind < 8,
                    pre.wf(),
                    pre.pids_unique(),
                    pre.children_ok(),
                    pre.init_ok(),
                    pre.live(ind as int),
                    pre.procs@[ind as int].pid != pre.procs@[ind as int].ppid,
                    pre.procs@[ind as int].pid != pcbs::PID_INIT,
                    matchf == child_pred(pre.proc_stat@, pre.procs@, ind as int),
                    k == pre.count_children(ind as int),
                    dying_pid == pre.procs@[ind as int].pid,
                    self.proc_stat == pre.proc_stat,
                    self.q == pre.q,
                    self.in_use == pre.in_use,
                    self.current == pre.current,
                    self.sched_ptr == pre.sched_ptr,
                    self.procs@ == pre.bite_mid_upto(ind as int, i as int),
                    *pool == *old(pool),
                decreases 8 - i,
            {
                proof {
                    lemma_count_mono(matchf, i as int, 8);
                    lemma_count_mono(matchf, i as int + 1, 8);
                    lemma_count_bounds(matchf, i as int);
                    lemma_count_bounds(child_pred(pre.proc_stat@, pre.procs@, 0), 8);
                    assert(ind != 0);
                    assert(pre.procs@[ind as int].children == k);
                    assert(pre.procs@[0].children == pre.count_children(0));
                }
                if i != ind as usize && self.proc_stat[i] == 1
                    && self.procs[i].ppid == dying_pid
                {
                    proof {
                        assert(self.procs@[i as int]
                            == pre.bite_mid_upto(ind as int, i as int)[i as int]);
                        assert(matchf(i as int));
                        assert(count_if(matchf, i as int + 1)
                            == count_if(matchf, i as int) + 1);
                    }
                    let ghost moved = count_if(matchf, i as int);
                    let c = self.procs[i];
                    self.procs.set(i, Pcb { ppid: pcbs::PID_INIT, ..c });
                    let d = self.procs[ind as usize];
                    proof {
                        assert(d == pre.bite_mid_upto(ind as int, i as int)[ind as int]);
                        assert(d.children == pre.procs@[ind as int].children - moved);
                        assert(d.children >= 1);
                    }
                    self.procs.set(ind as usize, Pcb { children: d.children - 1, ..d });
                    let z = self.procs[0];
                    proof {
                        assert(z == pre.bite_mid_upto(ind as int, i as int)[0]);
                        assert(z.children == pre.procs@[0].children + moved);
                        assert(z.children < 0xffff);
                    }
                    self.procs.set(0, Pcb { children: z.children + 1, ..z });
                    proof {
                        assert forall|j: int| 0 <= j < 8
                            implies self.procs@[j]
                                == #[trigger] pre.bite_mid_upto(ind as int, i as int + 1)[j]
                        by {
                            if j != i as int && j != ind as int && j != 0 {
                                assert(self.procs@[j]
                                    == pre.bite_mid_upto(ind as int, i as int)[j]);
                            }
                        }
                        assert(self.procs@ =~= pre.bite_mid_upto(ind as int, i as int + 1));
                    }
                } else {
                    proof {
                        assert(self.procs@[i as int]
                            == pre.bite_mid_upto(ind as int, i as int)[i as int]);
                        assert(!matchf(i as int));
                        assert(count_if(matchf, i as int + 1) == count_if(matchf, i as int));
                        assert forall|j: int| 0 <= j < 8
                            implies self.procs@[j]
                                == #[trigger] pre.bite_mid_upto(ind as int, i as int + 1)[j]
                        by {
                            assert(self.procs@[j]
                                == pre.bite_mid_upto(ind as int, i as int)[j]);
                        }
                        assert(self.procs@ =~= pre.bite_mid_upto(ind as int, i as int + 1));
                    }
                }
                i = i + 1;
            }
        } else {
            proof {
                assert(self.procs@[ind as int].children == 0);
                assert(pre.procs@[ind as int].children == 0);
                assert(k == 0);
                assert forall|j: int| 0 <= j < 8 implies !(#[trigger] matchf(j)) by {
                    if matchf(j) {
                        lemma_count_ge_one(matchf, 8, j);
                    }
                }
                assert forall|j: int| 0 <= j < 8
                    implies self.procs@[j]
                        == #[trigger] pre.bite_mid_upto(ind as int, 8)[j]
                by {
                    assert(self.procs@[j] == pre.bite_mid_upto(ind as int, 0)[j]);
                    assert(!matchf(j));
                }
                assert(self.procs@ =~= pre.bite_mid_upto(ind as int, 8));
            }
        }
        proof {
            assert(self.procs@ == pre.bite_mid(ind as int));
        }

        // Find the slot of the dying process's parent.
        let dying_ppid = self.procs[ind as usize].ppid;
        let mut parent: usize = 0;
        let mut i: usize = 0;
        while i < 8
            invariant
                i <= 8,
                pre == *old(self),
                0 <= ind < 8,
                pre.wf(),
                pre.live(ind as int),
                dying_ppid == pre.procs@[ind as int].ppid,
                dying_pid == pre.procs@[ind as int].pid,
                self.proc_stat == pre.proc_stat,
                self.q == pre.q,
                self.in_use == pre.in_use,
                self.current == pre.current,
                self.sched_ptr == pre.sched_ptr,
                self.procs@ == pre.bite_mid(ind as int),
                *pool == *old(pool),
                0 <= parent < 8,
                parent == find_parent_at(self.proc_stat@, self.procs@, dying_ppid, i as int),
            decreases 8 - i,
        {
            if self.proc_stat[i] == 1 && self.procs[i].pid == dying_ppid {
                parent = i;
            }
            i = i + 1;
        }
        proof {
            assert forall|j: int| 0 <= j < 8
                implies #[trigger] self.procs@[j].pid == pre.procs@[j].pid by {
                assert(self.procs@[j] == pre.bite_mid(ind as int)[j]);
            }
            lemma_find_parent_agree(
                self.proc_stat@, self.procs@, pre.proc_stat@, pre.procs@, dying_ppid, 8,
            );
            lemma_find_parent_found(pre.proc_stat@, pre.procs@, dying_ppid, 8);
            assert(parent == pre.find_parent(ind as int));
            assert(pre.procs@[parent as int].pid == pre.procs@[ind as int].ppid);
            assert(parent as int != ind as int);
        }
        let ghost p = parent as int;
        let ghost mid = pre.bite_mid(ind as int);

        // If the parent is already parked in wait, hand the exit over
        // synchronously: no Zombie state intervenes.
        if self.procs[parent].state == pcbs::ST_WAITING {
            proof {
                assert(pre.proc_stat@[p] == 1);
                assert(old(pool).cxt_ok(pre.procs@[p].cxt, pre.procs@[p].stack));
                old(pool).lemma_cxt_word(
                    pre.procs@[p].cxt, pre.procs@[p].stack, CXT_RAX as int,
                );
                // The parent has at least the dying process as a child.
                lemma_count_ge_one(
                    child_pred(pre.proc_stat@, pre.procs@, p), 8, ind as int,
                );
                assert(pre.procs@[p].children == pre.count_children(p));
                lemma_count_ge_one(live_pred(pre.proc_stat@), 8, ind as int);
            }
            let pcxt = self.procs[parent].cxt;
            pool.write_word(pcxt + 8 * CXT_RAX, dying_pid as u64);
            let pnow = self.procs[parent];
            self.procs.set(parent, Pcb {
                state: pcbs::ST_READY,
                children: pnow.children - 1,
                ..pnow
            });
            let sched_spot = self.procs[parent].spot;
            let ghost s1 = *self;
            self._schedule(sched_spot);
            proof {
                if pre.q@[pre.sched_ptr as int] == -1 {
                    assert(self.procs@ =~= s1.procs@);
                }
            }
            self.in_use = self.in_use - 1;
            self.proc_stat.set(ind as usize, 0);
            proof {
                self.lemma_bite_post_waiting(pre, ind as int, p);
            }
        }
        // Otherwise the process becomes a Zombie and waits to be reaped.
        else {
            let d = self.procs[ind as usize];
            self.procs.set(ind as usize, Pcb { state: pcbs::ST_ZOMBIE, ..d });
            proof {
                self.lemma_bite_post_zombie(pre, ind as int, p);
            }
        }
    }
}

} // verus!
