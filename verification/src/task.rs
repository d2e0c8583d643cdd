//! Task control blocks and the per-task resource ledger.
//!
//! A task is a slot-stable entry of the process's task table. Its ledger
//! records which resource units it holds (`allocation`, a duplicate-free set
//! of `(class, id)` pairs) and the at-most-one resource it is currently
//! requesting (`need`). The resource class is the flag the combined
//! allocation/need matrices are indexed by: `false` for a mutex, `true` for
//! a semaphore.

use vstd::prelude::*;

verus! {

/// Number of syscall slots a task's per-syscall counters cover.
pub const MAX_SYSCALL_NUM: usize = 500;

/// Task lifecycle status.
#[derive(Clone, Copy, PartialEq, Eq, Structural, Debug)]
pub enum TaskStatus {
    Ready,
    Running,
    Blocked,
    Exited,
}

/// Which kind of primitive's wait queue a blocked task sits in.
#[derive(Clone, Copy, PartialEq, Eq, Structural, Debug)]
pub enum WaitKind {
    MutexQueue,
    SemaphoreQueue,
    CondvarQueue,
}

/// Seconds and microseconds of one instant.
pub struct TimeVal {
    pub sec: usize,
    pub usec: usize,
}

impl TimeVal {
    /// Split a microsecond count into whole seconds and the remainder.
    pub fn from_micros(us: usize) -> (r: TimeVal)
        ensures
            r.sec == us / 1_000_000,
            r.usec == us % 1_000_000,
            r.usec < 1_000_000,
    {
        TimeVal { sec: us / 1_000_000, usec: us % 1_000_000 }
    }
}

/// What a task reports about itself: its status, how often it issued each
/// syscall, and its total running time.
pub struct TaskInfo {
    /// Task status in its life cycle.
    pub status: TaskStatus,
    /// The number of times each syscall was called by the task.
    pub syscall_times: Vec<u32>,
    /// Total running time of the task, in milliseconds.
    pub time: usize,
}

/// A ledger entry `(class, id)` names an existing resource slot: a mutex id
/// below `nm` or a semaphore id below `ns`.
pub open spec fn entry_ok(e: (bool, usize), nm: int, ns: int) -> bool {
    if e.0 {
        (e.1 as int) < ns
    } else {
        (e.1 as int) < nm
    }
}

/// One task control block.
pub struct Task {
    /// Lifecycle status.
    pub status: TaskStatus,
    /// Positive scheduling weight: a higher priority means a smaller stride
    /// step, so the task is dispatched more often.
    pub priority: usize,
    /// Accumulated pass value; the ready task with the smallest stride runs
    /// next.
    pub stride: usize,
    /// Resource units currently held: `(class, id)` pairs, no duplicates.
    pub allocation: Vec<(bool, usize)>,
    /// The at-most-one resource the task is currently requesting.
    pub need: Option<(bool, usize)>,
    /// The wait queue the task sits in while `Blocked`, if any; a task
    /// sleeping on the external timer is blocked with no queue.
    pub wait: Option<(WaitKind, usize)>,
    /// How often the task issued each syscall.
    pub syscall_times: Vec<u32>,
    /// Total running time of the task, in milliseconds, as the external
    /// timer bookkeeping reports it.
    pub time: usize,
}

impl Task {
    /// The ledger is duplicate-free and only names existing resource slots.
    pub open spec fn ledger_wf(self, nm: int, ns: int) -> bool {
        &&& self.allocation@.no_duplicates()
        &&& forall|k: int| 0 <= k < self.allocation@.len()
                ==> entry_ok(#[trigger] self.allocation@[k], nm, ns)
        &&& match self.need {
                Some(e) => entry_ok(e, nm, ns),
                None => true,
            }
    }

    /// A freshly spawned, ready task with an empty ledger.
    pub fn new(priority: usize) -> (r: Task)
        requires
            priority >= 1,
        ensures
            r.status == TaskStatus::Ready,
            r.priority == priority,
            r.stride == 0,
            r.allocation@.len() == 0,
            r.need is None,
            r.wait is None,
            r.syscall_times@ == Seq::<u32>::new(MAX_SYSCALL_NUM as nat, |i: int| 0u32),
            r.time == 0,
    {
        let mut times: Vec<u32> = Vec::new();
        let mut i: usize = 0;
        while i < MAX_SYSCALL_NUM
            invariant
                i <= MAX_SYSCALL_NUM,
                times@ == Seq::<u32>::new(i as nat, |k: int| 0u32),
            decreases MAX_SYSCALL_NUM - i,
        {
            times.push(0);
            proof {
                assert(times@ =~= Seq::<u32>::new((i + 1) as nat, |k: int| 0u32));
            }
            i = i + 1;
        }
        Task {
            status: TaskStatus::Ready,
            priority,
            stride: 0,
            allocation: Vec::new(),
            need: None,
            wait: None,
            syscall_times: times,
            time: 0,
        }
    }

    /// The ledger already holds a `(class, id)` entry.
    pub fn holds(&self, flag: bool, id: usize) -> (r: bool)
        ensures
            r == self.allocation@.contains((flag, id)),
    {
        let n = self.allocation.len();
        let mut i: usize = 0;
        while i < n
            invariant
                n == self.allocation@.len(),
                i <= n,
                forall|k: int| 0 <= k < i ==> self.allocation@[k] != (flag, id),
            decreases n - i,
        {
            let e = self.allocation[i];
            if e.0 == flag && e.1 == id {
                assert(self.allocation@[i as int] == (flag, id));
                return true;
            }
            i = i + 1;
        }
        false
    }

    /// Record that a granted resource unit is now held: set-insert, so a
    /// unit already on the ledger is not duplicated.
    pub fn record_allocation(&mut self, flag: bool, id: usize)
        ensures
            final(self).allocation@ == if old(self).allocation@.contains((flag, id)) {
                old(self).allocation@
            } else {
                old(self).allocation@.push((flag, id))
            },
            final(self).allocation@.contains((flag, id)),
            old(self).allocation@.no_duplicates() ==> final(self).allocation@.no_duplicates(),
            final(self).status == old(self).status,
            final(self).priority == old(self).priority,
            final(self).stride == old(self).stride,
            final(self).need == old(self).need,
            final(self).wait == old(self).wait,
            final(self).syscall_times == old(self).syscall_times,
            final(self).time == old(self).time,
    {
        if !self.holds(flag, id) {
            self.allocation.push((flag, id));
            proof {
                assert(self.allocation@.last() == (flag, id));
            }
        }
    }

    /// Remove the matching allocation entry if present; releasing a unit
    /// that is not held is tolerated silently.
    pub fn release_allocation(&mut self, flag: bool, id: usize)
        requires
            old(self).allocation@.no_duplicates(),
        ensures
            final(self).allocation@.no_duplicates(),
            !final(self).allocation@.contains((flag, id)),
            forall|e: (bool, usize)| e != (flag, id) ==>
                (final(self).allocation@.contains(e) == old(self).allocation@.contains(e)),
            final(self).allocation@.len() >= old(self).allocation@.len() - 1,
            final(self).status == old(self).status,
            final(self).priority == old(self).priority,
            final(self).stride == old(self).stride,
            final(self).need == old(self).need,
            final(self).wait == old(self).wait,
            final(self).syscall_times == old(self).syscall_times,
            final(self).time == old(self).time,
    {
        let n = self.allocation.len();
        let mut i: usize = 0;
        while i < n
            invariant
                *self == *old(self),
                self.allocation@.no_duplicates(),
                n == self.allocation@.len(),
                i <= n,
                forall|k: int| 0 <= k < i ==> self.allocation@[k] != (flag, id),
            decreases n - i,
        {
            let e = self.allocation[i];
            if e.0 == flag && e.1 == id {
                let ghost pre = self.allocation@;
                self.allocation.remove(i);
                proof {
                    pre.remove_ensures(i as int);
                    assert(self.allocation@ == pre.remove(i as int));
                    assert(pre.remove(i as int).no_duplicates()) by {
                        assert forall|p: int, q: int|
                            0 <= p < pre.remove(i as int).len()
                            && 0 <= q < pre.remove(i as int).len() && p != q
                            implies pre.remove(i as int)[p] != pre.remove(i as int)[q]
                        by {
                            let p0: int = if p < i { p } else { p + 1 };
                            let q0: int = if q < i { q } else { q + 1 };
                            assert(pre.no_duplicates());
                            assert(p0 != q0);
                            assert(0 <= p0 < pre.len());
                            assert(0 <= q0 < pre.len());
                            assert(pre.remove(i as int)[p] == pre[p0]);
                            assert(pre.remove(i as int)[q] == pre[q0]);
                            assert(pre[p0] != pre[q0]);
                        }
                    }
                    assert forall|x: (bool, usize)| x != (flag, id)
                        implies pre.remove(i as int).contains(x) == pre.contains(x)
                    by {
                        if pre.contains(x) {
                            let k = choose|k: int| 0 <= k < pre.len() && pre[k] == x;
                            if k < i {
                                assert(pre.remove(i as int)[k] == x);
                            } else {
                                assert(pre.remove(i as int)[k - 1] == x);
                            }
                        }
                        if pre.remove(i as int).contains(x) {
                            let k = choose|k: int|
                                0 <= k < pre.remove(i as int).len()
                                && pre.remove(i as int)[k] == x;
                            if k < i {
                                assert(pre[k] == x);
                            } else {
                                assert(pre[k + 1] == x);
                            }
                        }
                    }
                    assert(!pre.remove(i as int).contains((flag, id))) by {
                        if pre.remove(i as int).contains((flag, id)) {
                            let k = choose|k: int|
                                0 <= k < pre.remove(i as int).len()
                                && pre.remove(i as int)[k] == (flag, id);
                            if k < i {
                                assert(pre[k] == (flag, id));
                            } else {
                                assert(pre[k + 1] == (flag, id));
                                assert(pre[k + 1] == pre[i as int]);
                            }
                        }
                    }
                }
                return;
            }
            i = i + 1;
        }
    }
}

} // verus!
