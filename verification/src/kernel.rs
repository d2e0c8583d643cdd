//! The processor/dispatcher and the process state it schedules.
//!
//! One [`Kernel`] value owns the single execution core's current-task slot,
//! the process's task slot table, its resource tables, and its address
//! space. Every operation is one critical section: it takes the kernel
//! exclusively, mutates it, and returns with the well-formedness invariant
//! [`Kernel::wf`] re-established.
//!
//! The control-flow handoff itself (saving one register snapshot, loading
//! another) lives outside this core; what is modelled and verified is every
//! decision around it: which task runs next, who blocks, who wakes, and what
//! each syscall returns.

use vstd::prelude::*;

use crate::memory::range_all_mapped;
use crate::memory::range_all_unmapped;
use crate::memory::MapArea;
use crate::memory::MemorySet;
use crate::memory::PAGE_SIZE;
use crate::sync::Condvar;
use crate::sync::Mutex;
use crate::sync::Semaphore;
use crate::task::entry_ok;
use crate::task::Task;
use crate::task::TaskInfo;
use crate::task::TaskStatus;
use crate::task::WaitKind;
use crate::task::MAX_SYSCALL_NUM;

verus! {

/// Total stride budget one "whole" dispatch round distributes: a task's
/// stride grows by `BIG_STRIDE / priority` each time it is dispatched.
pub const BIG_STRIDE: usize = 65536;

/// The scheduling and synchronization core's whole state.
pub struct Kernel {
    /// Task slots: order-stable; an entry becomes `None` when its task
    /// exits, and new tasks are only ever appended.
    pub tasks: Vec<Option<Task>>,
    /// Mutex slots; creation reuses the lowest free slot.
    pub mutex_list: Vec<Option<Mutex>>,
    /// Semaphore slots; creation reuses the lowest free slot.
    pub semaphore_list: Vec<Option<Semaphore>>,
    /// Wait-condition slots; creation reuses the lowest free slot.
    pub condvar_list: Vec<Option<Condvar>>,
    /// The task currently executing on the core, `None` only while the idle
    /// control flow runs the scheduling loop.
    pub current: Option<usize>,
    /// Whether lock/acquire calls run the deadlock detector.
    pub deadlock_detect: bool,
    /// The process's address space, shared by all its tasks.
    pub memory: MemorySet,
    /// Lowest legal program break.
    pub heap_bottom: usize,
    /// Current program break.
    pub program_brk: usize,
}

impl Kernel {
    /// Number of mutex slots.
    pub open spec fn nm(self) -> int {
        self.mutex_list@.len() as int
    }

    /// Number of semaphore slots.
    pub open spec fn ns(self) -> int {
        self.semaphore_list@.len() as int
    }

    /// Slot `t` holds a task.
    pub open spec fn live(self, t: int) -> bool {
        0 <= t < self.tasks@.len() && self.tasks@[t] is Some
    }

    /// The task in slot `t`.
    pub open spec fn task(self, t: int) -> Task
        recommends
            self.live(t),
    {
        self.tasks@[t].unwrap()
    }

    /// The current task's slot index.
    pub open spec fn cur(self) -> int
        recommends
            self.current is Some,
    {
        self.current.unwrap() as int
    }

    /// A wait queue's members are live, blocked, recorded as waiting right
    /// here, and enqueued at most once.
    pub open spec fn queue_wf(self, q: Seq<usize>, kind: WaitKind, id: usize) -> bool {
        &&& q.no_duplicates()
        &&& forall|k: int| 0 <= k < q.len() ==> {
                &&& self.live(#[trigger] q[k] as int)
                &&& self.task(q[k] as int).status is Blocked
                &&& self.task(q[k] as int).wait == Some((kind, id))
            }
    }

    /// Every task's ledger is in range and duplicate-free, its priority
    /// positive, and only a blocked task sits in a wait queue.
    pub open spec fn tasks_wf(self) -> bool {
        forall|t: int| 0 <= t < self.tasks@.len() && self.tasks@[t] is Some ==> {
            let tk = (#[trigger] self.tasks@[t]).unwrap();
            &&& tk.ledger_wf(self.nm(), self.ns())
            &&& tk.priority >= 1
            &&& tk.syscall_times@.len() == MAX_SYSCALL_NUM
            &&& (!(tk.status is Blocked) ==> tk.wait is None)
        }
    }

    /// The current slot names the one `Running` task, if any.
    pub open spec fn current_wf(self) -> bool {
        &&& match self.current {
                Some(c) => self.live(c as int) && self.task(c as int).status is Running
                    && self.task(c as int).wait is None,
                None => true,
            }
        &&& forall|t: int|
                0 <= t < self.tasks@.len() && (#[trigger] self.tasks@[t]) is Some
                && self.tasks@[t].unwrap().status is Running
                ==> self.current is Some && self.cur() == t
    }

    /// Every primitive's queue is well-formed; a spin mutex never queues; a
    /// queued-on mutex is held; a queued-on semaphore has no spare units.
    pub open spec fn sync_wf(self) -> bool {
        &&& forall|m: int|
                0 <= m < self.mutex_list@.len() && (#[trigger] self.mutex_list@[m]) is Some ==> {
                    let mx = self.mutex_list@[m].unwrap();
                    &&& self.queue_wf(mx.wait_queue@, WaitKind::MutexQueue, m as usize)
                    &&& (!mx.blocking ==> mx.wait_queue@.len() == 0)
                    &&& (mx.wait_queue@.len() > 0 ==> mx.locked)
                }
        &&& forall|s: int|
                0 <= s < self.semaphore_list@.len() && (#[trigger] self.semaphore_list@[s]) is Some
                ==> {
                    let sm = self.semaphore_list@[s].unwrap();
                    &&& self.queue_wf(sm.wait_queue@, WaitKind::SemaphoreQueue, s as usize)
                    &&& (sm.wait_queue@.len() > 0 ==> sm.count == 0)
                }
        &&& forall|c: int|
                0 <= c < self.condvar_list@.len() && (#[trigger] self.condvar_list@[c]) is Some
                ==> self.queue_wf(
                    self.condvar_list@[c].unwrap().wait_queue@,
                    WaitKind::CondvarQueue,
                    c as usize,
                )
    }

    /// The kernel-wide well-formedness invariant.
    pub open spec fn wf(self) -> bool {
        &&& self.memory.wf()
        &&& self.heap_bottom <= self.program_brk <= isize::MAX
        &&& self.tasks_wf()
        &&& self.current_wf()
        &&& self.sync_wf()
    }

    /// The three resource tables agree between two kernel states.
    pub open spec fn same_lists(self, other: Kernel) -> bool {
        &&& self.mutex_list@ == other.mutex_list@
        &&& self.semaphore_list@ == other.semaphore_list@
        &&& self.condvar_list@ == other.condvar_list@
    }

    /// Address space, break bookkeeping and the detection switch agree
    /// between two kernel states.
    pub open spec fn same_misc(self, other: Kernel) -> bool {
        &&& self.memory == other.memory
        &&& self.heap_bottom == other.heap_bottom
        &&& self.program_brk == other.program_brk
        &&& self.deadlock_detect == other.deadlock_detect
    }
}

/// Stride step a dispatch adds: inversely proportional to priority.
pub open spec fn pass_of(t: Task) -> int {
    BIG_STRIDE as int / t.priority as int
}

/// A dispatched task's stride after the update (it tops out at the integer
/// limit rather than wrapping).
pub open spec fn stride_after(t: Task) -> int {
    if t.stride + pass_of(t) <= usize::MAX {
        t.stride + pass_of(t)
    } else {
        usize::MAX as int
    }
}

/// Replacing one non-blocked (or queue-free) task slot cannot invalidate any
/// wait queue, since queue members are blocked with a recorded wait site.
proof fn lemma_sync_wf_update(pre: Kernel, post: Kernel, t: int)
    requires
        pre.sync_wf(),
        post.mutex_list@ == pre.mutex_list@,
        post.semaphore_list@ == pre.semaphore_list@,
        post.condvar_list@ == pre.condvar_list@,
        post.tasks@.len() == pre.tasks@.len(),
        0 <= t < pre.tasks@.len(),
        forall|u: int| 0 <= u < pre.tasks@.len() && u != t
            ==> post.tasks@[u] == pre.tasks@[u],
        !(pre.tasks@[t] is Some && pre.task(t).status is Blocked && pre.task(t).wait is Some),
    ensures
        post.sync_wf(),
{
    assert forall|m: int|
        0 <= m < post.mutex_list@.len() && (#[trigger] post.mutex_list@[m]) is Some
        implies {
            let mx = post.mutex_list@[m].unwrap();
            &&& post.queue_wf(mx.wait_queue@, WaitKind::MutexQueue, m as usize)
            &&& (!mx.blocking ==> mx.wait_queue@.len() == 0)
            &&& (mx.wait_queue@.len() > 0 ==> mx.locked)
        }
    by {
        let mx = post.mutex_list@[m].unwrap();
        assert(pre.queue_wf(mx.wait_queue@, WaitKind::MutexQueue, m as usize));
        assert forall|k: int| 0 <= k < mx.wait_queue@.len() implies {
            &&& post.live(#[trigger] mx.wait_queue@[k] as int)
            &&& post.task(mx.wait_queue@[k] as int).status is Blocked
            &&& post.task(mx.wait_queue@[k] as int).wait
                == Some((WaitKind::MutexQueue, m as usize))
        } by {
            assert(mx.wait_queue@[k] as int != t);
        }
    }
    assert forall|s: int|
        0 <= s < post.semaphore_list@.len() && (#[trigger] post.semaphore_list@[s]) is Some
        implies {
            let sm = post.semaphore_list@[s].unwrap();
            &&& post.queue_wf(sm.wait_queue@, WaitKind::SemaphoreQueue, s as usize)
            &&& (sm.wait_queue@.len() > 0 ==> sm.count == 0)
        }
    by {
        let sm = post.semaphore_list@[s].unwrap();
        assert(pre.queue_wf(sm.wait_queue@, WaitKind::SemaphoreQueue, s as usize));
        assert forall|k: int| 0 <= k < sm.wait_queue@.len() implies {
            &&& post.live(#[trigger] sm.wait_queue@[k] as int)
            &&& post.task(sm.wait_queue@[k] as int).status is Blocked
            &&& post.task(sm.wait_queue@[k] as int).wait
                == Some((WaitKind::SemaphoreQueue, s as usize))
        } by {
            assert(sm.wait_queue@[k] as int != t);
        }
    }
    assert forall|c: int|
        0 <= c < post.condvar_list@.len() && (#[trigger] post.condvar_list@[c]) is Some
        implies post.queue_wf(
            post.condvar_list@[c].unwrap().wait_queue@,
            WaitKind::CondvarQueue,
            c as usize,
        )
    by {
        let cv = post.condvar_list@[c].unwrap();
        assert(pre.queue_wf(cv.wait_queue@, WaitKind::CondvarQueue, c as usize));
        assert forall|k: int| 0 <= k < cv.wait_queue@.len() implies {
            &&& post.live(#[trigger] cv.wait_queue@[k] as int)
            &&& post.task(cv.wait_queue@[k] as int).status is Blocked
            &&& post.task(cv.wait_queue@[k] as int).wait
                == Some((WaitKind::CondvarQueue, c as usize))
        } by {
            assert(cv.wait_queue@[k] as int != t);
        }
    }
}

/// Appending a fresh task slot cannot invalidate any wait queue.
proof fn lemma_sync_wf_push(pre: Kernel, post: Kernel)
    requires
        pre.sync_wf(),
        post.mutex_list@ == pre.mutex_list@,
        post.semaphore_list@ == pre.semaphore_list@,
        post.condvar_list@ == pre.condvar_list@,
        post.tasks@.len() == pre.tasks@.len() + 1,
        forall|u: int| 0 <= u < pre.tasks@.len() ==> post.tasks@[u] == pre.tasks@[u],
    ensures
        post.sync_wf(),
{
    assert forall|m: int|
        0 <= m < post.mutex_list@.len() && (#[trigger] post.mutex_list@[m]) is Some
        implies {
            let mx = post.mutex_list@[m].unwrap();
            &&& post.queue_wf(mx.wait_queue@, WaitKind::MutexQueue, m as usize)
            &&& (!mx.blocking ==> mx.wait_queue@.len() == 0)
            &&& (mx.wait_queue@.len() > 0 ==> mx.locked)
        }
    by {
        let mx = post.mutex_list@[m].unwrap();
        assert(pre.queue_wf(mx.wait_queue@, WaitKind::MutexQueue, m as usize));
    }
    assert forall|s: int|
        0 <= s < post.semaphore_list@.len() && (#[trigger] post.semaphore_list@[s]) is Some
        implies {
            let sm = post.semaphore_list@[s].unwrap();
            &&& post.queue_wf(sm.wait_queue@, WaitKind::SemaphoreQueue, s as usize)
            &&& (sm.wait_queue@.len() > 0 ==> sm.count == 0)
        }
    by {
        let sm = post.semaphore_list@[s].unwrap();
        assert(pre.queue_wf(sm.wait_queue@, WaitKind::SemaphoreQueue, s as usize));
    }
    assert forall|c: int|
        0 <= c < post.condvar_list@.len() && (#[trigger] post.condvar_list@[c]) is Some
        implies post.queue_wf(
            post.condvar_list@[c].unwrap().wait_queue@,
            WaitKind::CondvarQueue,
            c as usize,
        )
    by {
        let cv = post.condvar_list@[c].unwrap();
        assert(pre.queue_wf(cv.wait_queue@, WaitKind::CondvarQueue, c as usize));
    }
}

impl Kernel {
    /// An empty kernel: no tasks, no primitives, nothing mapped, heap
    /// bookkeeping starting at `heap_base`.
    pub fn new(heap_base: usize) -> (r: Kernel)
        requires
            heap_base <= isize::MAX,
        ensures
            r.wf(),
            r.tasks@.len() == 0,
            r.mutex_list@.len() == 0,
            r.semaphore_list@.len() == 0,
            r.condvar_list@.len() == 0,
            r.current is None,
            !r.deadlock_detect,
            r.memory.areas@.len() == 0,
            r.heap_bottom == heap_base,
            r.program_brk == heap_base,
    {
        Kernel {
            tasks: Vec::new(),
            mutex_list: Vec::new(),
            semaphore_list: Vec::new(),
            condvar_list: Vec::new(),
            current: None,
            deadlock_detect: false,
            memory: MemorySet::new(),
            heap_bottom: heap_base,
            program_brk: heap_base,
        }
    }

    /// Vacate task slot `i` and hand its occupant out.
    fn task_take(&mut self, i: usize) -> (t: Option<Task>)
        requires
            i < old(self).tasks@.len(),
        ensures
            final(self).tasks@ == old(self).tasks@.update(i as int, None::<Task>),
            t == old(self).tasks@[i as int],
            final(self).same_lists(*old(self)),
            final(self).same_misc(*old(self)),
            final(self).current == old(self).current,
    {
        let t = self.tasks.remove(i);
        self.tasks.insert(i, None);
        proof {
            old(self).tasks@.remove_ensures(i as int);
            assert(self.tasks@ =~= old(self).tasks@.update(i as int, None::<Task>));
        }
        t
    }

    /// Append a freshly spawned ready task and return its stable slot index.
    pub fn spawn_task(&mut self, priority: usize) -> (tid: usize)
        requires
            old(self).wf(),
            priority >= 1,
            old(self).tasks@.len() < usize::MAX,
        ensures
            final(self).wf(),
            tid == old(self).tasks@.len(),
            final(self).tasks@.len() == old(self).tasks@.len() + 1,
            forall|u: int| 0 <= u < old(self).tasks@.len()
                ==> final(self).tasks@[u] == old(self).tasks@[u],
            final(self).live(tid as int),
            final(self).task(tid as int).status is Ready,
            final(self).task(tid as int).priority == priority,
            final(self).task(tid as int).stride == 0,
            final(self).task(tid as int).allocation@.len() == 0,
            final(self).task(tid as int).need is None,
            final(self).same_lists(*old(self)),
            final(self).same_misc(*old(self)),
            final(self).current == old(self).current,
    {
        let tid = self.tasks.len();
        let t = Task::new(priority);
        self.tasks.push(Some(t));
        proof {
            lemma_sync_wf_push(*old(self), *self);
            assert(self.tasks_wf());
            assert(self.current_wf());
        }
        tid
    }

    /// A copy of the current task's slot index, if a task is running.
    pub fn current_task(&self) -> (r: Option<usize>)
        ensures
            r == self.current,
    {
        self.current
    }

    /// The scheduling loop's one decision: dispatch the ready task with the
    /// smallest stride (ties to the lowest task id), mark it running, and
    /// advance its stride by a step inversely proportional to its priority.
    /// Returns the dispatched slot, or `None` when no task is ready.
    pub fn run_tasks(&mut self) -> (r: Option<usize>)
        requires
            old(self).wf(),
            old(self).current is None,
        ensures
            final(self).wf(),
            r is None ==> *final(self) == *old(self)
                && forall|t: int| old(self).live(t)
                    ==> !((#[trigger] old(self).task(t)).status is Ready),
            r is Some ==> {
                let t = r.unwrap() as int;
                &&& old(self).live(t)
                &&& old(self).task(t).status is Ready
                &&& forall|u: int| old(self).live(u)
                        && (#[trigger] old(self).task(u)).status is Ready
                        ==> old(self).task(t).stride < old(self).task(u).stride
                            || (old(self).task(t).stride == old(self).task(u).stride
                                && t <= u)
                &&& final(self).current == r
                &&& final(self).tasks@.len() == old(self).tasks@.len()
                &&& forall|u: int| 0 <= u < old(self).tasks@.len() && u != t
                        ==> final(self).tasks@[u] == old(self).tasks@[u]
                &&& final(self).live(t)
                &&& final(self).task(t) == Task {
                        status: TaskStatus::Running,
                        stride: stride_after(old(self).task(t)) as usize,
                        ..old(self).task(t)
                    }
                &&& final(self).same_lists(*old(self))
                &&& final(self).same_misc(*old(self))
            },
    {
        let n = self.tasks.len();
        let mut best: Option<usize> = None;
        let mut best_stride: usize = 0;
        let mut i: usize = 0;
        while i < n
            invariant
                *self == *old(self),
                n == self.tasks@.len(),
                i <= n,
                match best {
                    None => forall|k: int| 0 <= k < i && self.live(k)
                        ==> !((#[trigger] self.task(k)).status is Ready),
                    Some(b) => {
                        &&& (b as int) < i
                        &&& self.live(b as int)
                        &&& self.task(b as int).status is Ready
                        &&& best_stride == self.task(b as int).stride
                        &&& forall|k: int| 0 <= k < i && self.live(k)
                                && (#[trigger] self.task(k)).status is Ready
                                ==> best_stride < self.task(k).stride
                                    || (best_stride == self.task(k).stride && b as int <= k)
                    },
                },
            decreases n - i,
        {
            match &self.tasks[i] {
                Some(t) => {
                    if t.status == TaskStatus::Ready {
                        match best {
                            None => {
                                best = Some(i);
                                best_stride = t.stride;
                            },
                            Some(_) => {
                                if t.stride < best_stride {
                                    best = Some(i);
                                    best_stride = t.stride;
                                }
                            },
                        }
                    }
                },
                None => {},
            }
            i = i + 1;
        }
        match best {
            None => None,
            Some(b) => {
                let mut t = self.task_take(b).unwrap();
                let pass = BIG_STRIDE / t.priority;
                if t.stride <= usize::MAX - pass {
                    t.stride = t.stride + pass;
                } else {
                    t.stride = usize::MAX;
                }
                t.status = TaskStatus::Running;
                let ghost mid = *self;
                self.tasks[b] = Some(t);
                self.current = Some(b);
                proof {
                    assert(self.tasks@ =~= old(self).tasks@.update(
                        b as int,
                        Some(Task {
                            status: TaskStatus::Running,
                            stride: stride_after(old(self).task(b as int)) as usize,
                            ..old(self).task(b as int)
                        }),
                    ));
                    lemma_sync_wf_update(*old(self), *self, b as int);
                    assert(self.tasks_wf());
                    assert(self.current_wf());
                }
                Some(b)
            },
        }
    }

    /// The current task gives the core up voluntarily: it goes back to
    /// `Ready` and the idle control flow takes over.
    pub fn sys_yield(&mut self) -> (r: isize)
        requires
            old(self).wf(),
            old(self).current is Some,
        ensures
            final(self).wf(),
            r == 0,
            final(self).current is None,
            final(self).tasks@ == old(self).tasks@.update(
                old(self).cur(),
                Some(Task { status: TaskStatus::Ready, ..old(self).task(old(self).cur()) }),
            ),
            final(self).same_lists(*old(self)),
            final(self).same_misc(*old(self)),
    {
        let c = self.current.unwrap();
        let mut t = self.task_take(c).unwrap();
        t.status = TaskStatus::Ready;
        self.tasks[c] = Some(t);
        self.current = None;
        proof {
            assert(self.tasks@ =~= old(self).tasks@.update(
                old(self).cur(),
                Some(Task { status: TaskStatus::Ready, ..old(self).task(old(self).cur()) }),
            ));
            lemma_sync_wf_update(*old(self), *self, c as int);
            assert(self.tasks_wf());
            assert forall|u: int|
                0 <= u < self.tasks@.len() && (#[trigger] self.tasks@[u]) is Some
                && self.tasks@[u].unwrap().status is Running
                implies self.current is Some && self.cur() == u
            by {
                if u != c as int {
                    assert(old(self).tasks@[u] == self.tasks@[u]);
                    assert(old(self).cur() == u);
                }
                assert(false);
            }
            assert(self.current_wf());
        }
        0
    }

    /// The current task exits: its slot is vacated (bulk teardown of what it
    /// still held is the process exit path's business, outside this core)
    /// and the idle control flow takes over.
    pub fn sys_exit(&mut self, _exit_code: i32)
        requires
            old(self).wf(),
            old(self).current is Some,
        ensures
            final(self).wf(),
            final(self).current is None,
            final(self).tasks@ == old(self).tasks@.update(old(self).cur(), None::<Task>),
            final(self).same_lists(*old(self)),
            final(self).same_misc(*old(self)),
    {
        let c = self.current.unwrap();
        let _ = self.task_take(c);
        self.current = None;
        proof {
            lemma_sync_wf_update(*old(self), *self, c as int);
            assert(self.tasks_wf());
            assert forall|u: int|
                0 <= u < self.tasks@.len() && (#[trigger] self.tasks@[u]) is Some
                && self.tasks@[u].unwrap().status is Running
                implies self.current is Some && self.cur() == u
            by {
                if u != c as int {
                    assert(old(self).tasks@[u] == self.tasks@[u]);
                    assert(old(self).cur() == u);
                }
                assert(false);
            }
            assert(self.current_wf());
        }
    }

    /// Re-mark a timer-blocked task ready: the external timer's wakeup call
    /// once the requested deadline has passed.
    pub fn wakeup_task(&mut self, tid: usize)
        requires
            old(self).wf(),
            old(self).live(tid as int),
            old(self).task(tid as int).status is Blocked,
            old(self).task(tid as int).wait is None,
        ensures
            final(self).wf(),
            final(self).current == old(self).current,
            final(self).tasks@ == old(self).tasks@.update(
                tid as int,
                Some(Task { status: TaskStatus::Ready, ..old(self).task(tid as int) }),
            ),
            final(self).same_lists(*old(self)),
            final(self).same_misc(*old(self)),
    {
        let mut t = self.task_take(tid).unwrap();
        t.status = TaskStatus::Ready;
        self.tasks[tid] = Some(t);
        proof {
            assert(self.tasks@ =~= old(self).tasks@.update(
                tid as int,
                Some(Task { status: TaskStatus::Ready, ..old(self).task(tid as int) }),
            ));
            lemma_sync_wf_update(*old(self), *self, tid as int);
            assert(self.tasks_wf());
            assert(self.current_wf());
        }
    }

    /// The current task blocks until the external timer wakes it: the
    /// deadline bookkeeping lives with the timer, the state transition here.
    pub fn sys_sleep(&mut self, _ms: usize) -> (r: isize)
        requires
            old(self).wf(),
            old(self).current is Some,
        ensures
            final(self).wf(),
            r == 0,
            final(self).current is None,
            final(self).tasks@ == old(self).tasks@.update(
                old(self).cur(),
                Some(Task { status: TaskStatus::Blocked, ..old(self).task(old(self).cur()) }),
            ),
            final(self).same_lists(*old(self)),
            final(self).same_misc(*old(self)),
    {
        let c = self.current.unwrap();
        let mut t = self.task_take(c).unwrap();
        t.status = TaskStatus::Blocked;
        self.tasks[c] = Some(t);
        self.current = None;
        proof {
            assert(self.tasks@ =~= old(self).tasks@.update(
                old(self).cur(),
                Some(Task { status: TaskStatus::Blocked, ..old(self).task(old(self).cur()) }),
            ));
            lemma_sync_wf_update(*old(self), *self, c as int);
            assert(self.tasks_wf());
            assert forall|u: int|
                0 <= u < self.tasks@.len() && (#[trigger] self.tasks@[u]) is Some
                && self.tasks@[u].unwrap().status is Running
                implies self.current is Some && self.cur() == u
            by {
                if u != c as int {
                    assert(old(self).tasks@[u] == self.tasks@[u]);
                    assert(old(self).cur() == u);
                }
                assert(false);
            }
            assert(self.current_wf());
        }
        0
    }

    /// Toggle the per-process deadlock-detection gate: `0` disables, `1`
    /// enables, anything else is rejected.
    pub fn sys_enable_deadlock_detect(&mut self, enabled: usize) -> (r: isize)
        requires
            old(self).wf(),
        ensures
            final(self).wf(),
            enabled == 0 || enabled == 1 ==> r == 0 && final(self).deadlock_detect == (enabled == 1),
            !(enabled == 0 || enabled == 1) ==> r == -1 && *final(self) == *old(self),
            final(self).tasks@ == old(self).tasks@,
            final(self).current == old(self).current,
            final(self).same_lists(*old(self)),
            final(self).memory == old(self).memory,
            final(self).heap_bottom == old(self).heap_bottom,
            final(self).program_brk == old(self).program_brk,
    {
        if enabled == 0 || enabled == 1 {
            self.deadlock_detect = enabled != 0;
            0
        } else {
            -1
        }
    }

    /// Move the program break by `size` bytes and report the old break; a
    /// request below the heap bottom is refused with no mutation.
    pub fn sys_sbrk(&mut self, size: i32) -> (r: isize)
        requires
            old(self).wf(),
            old(self).program_brk + size <= isize::MAX,
        ensures
            final(self).wf(),
            old(self).program_brk + size < old(self).heap_bottom
                ==> r == -1 && *final(self) == *old(self),
            old(self).program_brk + size >= old(self).heap_bottom ==> {
                &&& r == old(self).program_brk as isize
                &&& final(self).program_brk == old(self).program_brk + size
                &&& final(self).heap_bottom == old(self).heap_bottom
                &&& final(self).tasks@ == old(self).tasks@
                &&& final(self).current == old(self).current
                &&& final(self).same_lists(*old(self))
                &&& final(self).memory == old(self).memory
                &&& final(self).deadlock_detect == old(self).deadlock_detect
            },
    {
        let new_brk: isize = self.program_brk as isize + size as isize;
        if new_brk < self.heap_bottom as isize {
            -1
        } else {
            let old_brk = self.program_brk;
            self.program_brk = new_brk as usize;
            old_brk as isize
        }
    }
}

/// Page number of the page a byte address lies on.
pub open spec fn vpn_lo(start: int) -> int {
    start / 4096
}

/// Page number just past the page range that byte range `[start, start+len)`
/// touches.
pub open spec fn vpn_hi(start: int, len: int) -> int {
    (start + len) / 4096 + if (start + len) % 4096 != 0 { 1int } else { 0int }
}

/// Changing resource slots without touching any surviving slot's queue (and
/// leaving the task table alone) cannot invalidate any wait queue.
proof fn lemma_sync_wf_lists(pre: Kernel, post: Kernel)
    requires
        pre.sync_wf(),
        post.tasks@ == pre.tasks@,
        forall|m: int|
            0 <= m < post.mutex_list@.len() && (#[trigger] post.mutex_list@[m]) is Some
            ==> (0 <= m < pre.mutex_list@.len() && post.mutex_list@[m] == pre.mutex_list@[m])
                || post.mutex_list@[m].unwrap().wait_queue@.len() == 0,
        forall|s: int|
            0 <= s < post.semaphore_list@.len() && (#[trigger] post.semaphore_list@[s]) is Some
            ==> (0 <= s < pre.semaphore_list@.len()
                    && post.semaphore_list@[s] == pre.semaphore_list@[s])
                || post.semaphore_list@[s].unwrap().wait_queue@.len() == 0,
        forall|c: int|
            0 <= c < post.condvar_list@.len() && (#[trigger] post.condvar_list@[c]) is Some
            ==> (0 <= c < pre.condvar_list@.len()
                    && post.condvar_list@[c] == pre.condvar_list@[c])
                || post.condvar_list@[c].unwrap().wait_queue@.len() == 0,
    ensures
        post.sync_wf(),
{
    assert forall|m: int|
        0 <= m < post.mutex_list@.len() && (#[trigger] post.mutex_list@[m]) is Some
        implies {
            let mx = post.mutex_list@[m].unwrap();
            &&& post.queue_wf(mx.wait_queue@, WaitKind::MutexQueue, m as usize)
            &&& (!mx.blocking ==> mx.wait_queue@.len() == 0)
            &&& (mx.wait_queue@.len() > 0 ==> mx.locked)
        }
    by {
        let mx = post.mutex_list@[m].unwrap();
        if 0 <= m < pre.mutex_list@.len() && post.mutex_list@[m] == pre.mutex_list@[m] {
            assert(pre.queue_wf(mx.wait_queue@, WaitKind::MutexQueue, m as usize));
        }
    }
    assert forall|s: int|
        0 <= s < post.semaphore_list@.len() && (#[trigger] post.semaphore_list@[s]) is Some
        implies {
            let sm = post.semaphore_list@[s].unwrap();
            &&& post.queue_wf(sm.wait_queue@, WaitKind::SemaphoreQueue, s as usize)
            &&& (sm.wait_queue@.len() > 0 ==> sm.count == 0)
        }
    by {
        let sm = post.semaphore_list@[s].unwrap();
        if 0 <= s < pre.semaphore_list@.len() && post.semaphore_list@[s] == pre.semaphore_list@[s] {
            assert(pre.queue_wf(sm.wait_queue@, WaitKind::SemaphoreQueue, s as usize));
        }
    }
    assert forall|c: int|
        0 <= c < post.condvar_list@.len() && (#[trigger] post.condvar_list@[c]) is Some
        implies post.queue_wf(
            post.condvar_list@[c].unwrap().wait_queue@,
            WaitKind::CondvarQueue,
            c as usize,
        )
    by {
        let cv = post.condvar_list@[c].unwrap();
        if 0 <= c < pre.condvar_list@.len() && post.condvar_list@[c] == pre.condvar_list@[c] {
            assert(pre.queue_wf(cv.wait_queue@, WaitKind::CondvarQueue, c as usize));
        }
    }
}

/// Growing the resource tables keeps every task ledger in range.
proof fn lemma_tasks_wf_grow(pre: Kernel, post: Kernel)
    requires
        pre.tasks_wf(),
        post.tasks@ == pre.tasks@,
        post.nm() >= pre.nm(),
        post.ns() >= pre.ns(),
    ensures
        post.tasks_wf(),
{
    assert forall|t: int|
        0 <= t < post.tasks@.len() && (#[trigger] post.tasks@[t]) is Some
        implies {
            let tk = post.tasks@[t].unwrap();
            &&& tk.ledger_wf(post.nm(), post.ns())
            &&& tk.priority >= 1
            &&& tk.syscall_times@.len() == MAX_SYSCALL_NUM
            &&& (!(tk.status is Blocked) ==> tk.wait is None)
        }
    by {
        let tk = post.tasks@[t].unwrap();
        assert(pre.tasks@[t] is Some);
        assert(tk.ledger_wf(pre.nm(), pre.ns()));
        assert forall|k: int| 0 <= k < tk.allocation@.len()
            implies entry_ok(#[trigger] tk.allocation@[k], post.nm(), post.ns())
        by {
            assert(entry_ok(tk.allocation@[k], pre.nm(), pre.ns()));
        }
    }
}

impl Kernel {
    /// Record the current task's pending request. The caller must not have
    /// one pending already: a second concurrent request from one task is a
    /// kernel-internal bug, not a recoverable error.
    pub fn set_need_resource(&mut self, flag: bool, id: usize)
        requires
            old(self).wf(),
            old(self).current is Some,
            old(self).task(old(self).cur()).need is None,
            entry_ok((flag, id), old(self).nm(), old(self).ns()),
        ensures
            final(self).wf(),
            final(self).current == old(self).current,
            final(self).tasks@ == old(self).tasks@.update(
                old(self).cur(),
                Some(Task { need: Some((flag, id)), ..old(self).task(old(self).cur()) }),
            ),
            final(self).same_lists(*old(self)),
            final(self).same_misc(*old(self)),
    {
        let c = self.current.unwrap();
        let mut t = self.task_take(c).unwrap();
        t.need = Some((flag, id));
        self.tasks[c] = Some(t);
        proof {
            assert(self.tasks@ =~= old(self).tasks@.update(
                old(self).cur(),
                Some(Task { need: Some((flag, id)), ..old(self).task(old(self).cur()) }),
            ));
            lemma_sync_wf_update(*old(self), *self, c as int);
            assert(self.tasks_wf());
            assert(self.current_wf());
        }
    }

    /// Drop the matching entry from the current task's held-resource ledger;
    /// releasing a unit that is not held is silently tolerated.
    pub fn mark_resource_released(&mut self, flag: bool, id: usize)
        requires
            old(self).wf(),
            old(self).current is Some,
        ensures
            final(self).wf(),
            final(self).current == old(self).current,
            final(self).tasks@.len() == old(self).tasks@.len(),
            forall|u: int| 0 <= u < old(self).tasks@.len() && u != old(self).cur()
                ==> final(self).tasks@[u] == old(self).tasks@[u],
            final(self).live(old(self).cur()),
            !final(self).task(old(self).cur()).allocation@.contains((flag, id)),
            forall|e: (bool, usize)| e != (flag, id)
                ==> final(self).task(old(self).cur()).allocation@.contains(e)
                    == old(self).task(old(self).cur()).allocation@.contains(e),
            final(self).task(old(self).cur()).status
                == old(self).task(old(self).cur()).status,
            final(self).task(old(self).cur()).need == old(self).task(old(self).cur()).need,
            final(self).task(old(self).cur()).wait == old(self).task(old(self).cur()).wait,
            final(self).task(old(self).cur()).priority
                == old(self).task(old(self).cur()).priority,
            final(self).task(old(self).cur()).stride == old(self).task(old(self).cur()).stride,
            final(self).same_lists(*old(self)),
            final(self).same_misc(*old(self)),
    {
        let c = self.current.unwrap();
        let mut t = self.task_take(c).unwrap();
        t.release_allocation(flag, id);
        self.tasks[c] = Some(t);
        proof {
            lemma_sync_wf_update(*old(self), *self, c as int);
            let tk = self.task(old(self).cur());
            let pre_tk = old(self).task(old(self).cur());
            assert forall|k: int| 0 <= k < tk.allocation@.len()
                implies entry_ok(#[trigger] tk.allocation@[k], self.nm(), self.ns())
            by {
                let e = tk.allocation@[k];
                assert(tk.allocation@.contains(e));
                if e != (flag, id) {
                    assert(pre_tk.allocation@.contains(e));
                    let j = choose|j: int|
                        0 <= j < pre_tk.allocation@.len() && pre_tk.allocation@[j] == e;
                    assert(entry_ok(pre_tk.allocation@[j], self.nm(), self.ns()));
                }
            }
            assert(self.tasks_wf());
            assert(self.current_wf());
        }
    }

    /// Bump the current task's counter for one syscall; an id beyond the
    /// table is ignored.
    pub fn update_syscall_times(&mut self, syscall_id: usize)
        requires
            old(self).wf(),
            old(self).current is Some,
            syscall_id < MAX_SYSCALL_NUM
                ==> old(self).task(old(self).cur()).syscall_times@[syscall_id as int]
                    < u32::MAX,
        ensures
            final(self).wf(),
            syscall_id >= MAX_SYSCALL_NUM ==> *final(self) == *old(self),
            syscall_id < MAX_SYSCALL_NUM ==> {
                &&& final(self).current == old(self).current
                &&& final(self).tasks@.len() == old(self).tasks@.len()
                &&& forall|u: int| 0 <= u < old(self).tasks@.len() && u != old(self).cur()
                        ==> final(self).tasks@[u] == old(self).tasks@[u]
                &&& final(self).live(old(self).cur())
                &&& final(self).task(old(self).cur()).syscall_times@
                    == old(self).task(old(self).cur()).syscall_times@.update(
                        syscall_id as int,
                        (old(self).task(old(self).cur()).syscall_times@[syscall_id as int]
                            + 1) as u32,
                    )
                &&& final(self).task(old(self).cur()) == Task {
                        syscall_times: final(self).task(old(self).cur()).syscall_times,
                        ..old(self).task(old(self).cur())
                    }
                &&& final(self).same_lists(*old(self))
                &&& final(self).same_misc(*old(self))
            },
    {
        if syscall_id >= MAX_SYSCALL_NUM {
            return;
        }
        let c = self.current.unwrap();
        let mut t = self.task_take(c).unwrap();
        let v = t.syscall_times[syscall_id];
        t.syscall_times[syscall_id] = v + 1;
        self.tasks[c] = Some(t);
        proof {
            lemma_sync_wf_update(*old(self), *self, c as int);
            assert(self.tasks_wf());
            assert(self.current_wf());
        }
    }

    /// Report the current task's status, syscall counters and running time.
    pub fn sys_task_info(&self, ti: &mut TaskInfo) -> (r: isize)
        requires
            self.wf(),
            self.current is Some,
        ensures
            r == 0,
            final(ti).status == self.task(self.cur()).status,
            final(ti).syscall_times@ == self.task(self.cur()).syscall_times@,
            final(ti).time == self.task(self.cur()).time,
    {
        let c = self.current.unwrap();
        let t = self.tasks[c].as_ref().unwrap();
        ti.status = t.status;
        ti.time = t.time;
        let n = t.syscall_times.len();
        let mut v: Vec<u32> = Vec::new();
        let mut i: usize = 0;
        while i < n
            invariant
                n == t.syscall_times@.len(),
                i <= n,
                v@ == t.syscall_times@.take(i as int),
            decreases n - i,
        {
            v.push(t.syscall_times[i]);
            proof {
                assert(v@ =~= t.syscall_times@.take(i as int + 1));
            }
            i = i + 1;
        }
        proof {
            assert(t.syscall_times@.take(n as int) =~= t.syscall_times@);
        }
        ti.syscall_times = v;
        0
    }
}


/// Blocking the running task `c` and parking it on one mutex queue keeps
/// every wait queue well-formed: a running task sat in no queue before.
proof fn lemma_sync_wf_enqueue_mutex(pre: Kernel, post: Kernel, c: usize, id: usize)
    requires
        pre.sync_wf(),
        (c as int) < pre.tasks@.len(),
        pre.tasks@[c as int] is Some,
        !(pre.task(c as int).status is Blocked),
        post.tasks@.len() == pre.tasks@.len(),
        forall|u: int| 0 <= u < pre.tasks@.len() && u != c as int
            ==> post.tasks@[u] == pre.tasks@[u],
        post.tasks@[c as int] is Some,
        post.task(c as int).status is Blocked,
        post.task(c as int).wait == Some((WaitKind::MutexQueue, id)),
        (id as int) < pre.mutex_list@.len(),
        pre.mutex_list@[id as int] is Some,
        post.mutex_list@.len() == pre.mutex_list@.len(),
        forall|m: int| 0 <= m < pre.mutex_list@.len() && m != id as int
            ==> post.mutex_list@[m] == pre.mutex_list@[m],
        post.mutex_list@[id as int] is Some,
        post.mutex_list@[id as int].unwrap().wait_queue@
            == pre.mutex_list@[id as int].unwrap().wait_queue@.push(c),
        post.mutex_list@[id as int].unwrap().locked,
        post.mutex_list@[id as int].unwrap().blocking,
        post.semaphore_list@ == pre.semaphore_list@,
        post.condvar_list@ == pre.condvar_list@,
    ensures
        post.sync_wf(),
{
    assert forall|m: int|
        0 <= m < post.mutex_list@.len() && (#[trigger] post.mutex_list@[m]) is Some
        implies {
            let mx = post.mutex_list@[m].unwrap();
            &&& post.queue_wf(mx.wait_queue@, WaitKind::MutexQueue, m as usize)
            &&& (!mx.blocking ==> mx.wait_queue@.len() == 0)
            &&& (mx.wait_queue@.len() > 0 ==> mx.locked)
        }
    by {
        if m != id as int {
            assert(post.mutex_list@[m] == pre.mutex_list@[m]);
        }
        assert(pre.queue_wf(
            pre.mutex_list@[m].unwrap().wait_queue@,
            WaitKind::MutexQueue,
            m as usize,
        ));
        let q = post.mutex_list@[m].unwrap().wait_queue@;
        let q0 = pre.mutex_list@[m].unwrap().wait_queue@;
        assert forall|k: int| 0 <= k < q.len() implies {
            &&& post.live(#[trigger] q[k] as int)
            &&& post.task(q[k] as int).status is Blocked
            &&& post.task(q[k] as int).wait == Some((WaitKind::MutexQueue, m as usize))
        } by {
            if m == id as int && k == q.len() - 1 {
                assert(q[k] == c);
            } else {
                assert(q[k] == q0[k]);
                assert(pre.task(q0[k] as int).status is Blocked);
                assert(q0[k] as int != c as int);
            }
        }
        assert(q.no_duplicates()) by {
            if m == id as int {
                assert forall|p: int, k: int|
                    0 <= p < q.len() && 0 <= k < q.len() && p != k
                    implies q[p] != q[k]
                by {
                    if p < q.len() - 1 && k < q.len() - 1 {
                        assert(q[p] == q0[p] && q[k] == q0[k]);
                    } else {
                        let inner: int = if p < q.len() - 1 { p } else { k };
                        assert(q[inner] == q0[inner]);
                        assert(pre.task(q0[inner] as int).status is Blocked);
                        assert(q0[inner] as int != c as int);
                    }
                }
            }
        }
    }
    assert forall|m: int|
        0 <= m < post.semaphore_list@.len() && (#[trigger] post.semaphore_list@[m]) is Some
        implies {
            let sm = post.semaphore_list@[m].unwrap();
            &&& post.queue_wf(sm.wait_queue@, WaitKind::SemaphoreQueue, m as usize)
            &&& (sm.wait_queue@.len() > 0 ==> sm.count == 0)
        }
    by {
        assert(post.semaphore_list@[m] == pre.semaphore_list@[m]);
        assert(pre.queue_wf(
            pre.semaphore_list@[m].unwrap().wait_queue@,
            WaitKind::SemaphoreQueue,
            m as usize,
        ));
        let q = post.semaphore_list@[m].unwrap().wait_queue@;
        assert forall|k: int| 0 <= k < q.len() implies {
            &&& post.live(#[trigger] q[k] as int)
            &&& post.task(q[k] as int).status is Blocked
            &&& post.task(q[k] as int).wait == Some((WaitKind::SemaphoreQueue, m as usize))
        } by {
            assert(pre.task(q[k] as int).status is Blocked);
            assert(q[k] as int != c as int);
        }
    }
    assert forall|m: int|
        0 <= m < post.condvar_list@.len() && (#[trigger] post.condvar_list@[m]) is Some
        implies post.queue_wf(
            post.condvar_list@[m].unwrap().wait_queue@,
            WaitKind::CondvarQueue,
            m as usize,
        )
    by {
        assert(post.condvar_list@[m] == pre.condvar_list@[m]);
        assert(pre.queue_wf(
            pre.condvar_list@[m].unwrap().wait_queue@,
            WaitKind::CondvarQueue,
            m as usize,
        ));
        let q = post.condvar_list@[m].unwrap().wait_queue@;
        assert forall|k: int| 0 <= k < q.len() implies {
            &&& post.live(#[trigger] q[k] as int)
            &&& post.task(q[k] as int).status is Blocked
            &&& post.task(q[k] as int).wait == Some((WaitKind::CondvarQueue, m as usize))
        } by {
            assert(pre.task(q[k] as int).status is Blocked);
            assert(q[k] as int != c as int);
        }
    }
}

/// Waking the front waiter `w` of one mutex queue keeps every wait queue
/// well-formed: a waiter's recorded wait site names the one queue it sits in.
proof fn lemma_sync_wf_dequeue_mutex(pre: Kernel, post: Kernel, w: usize, id: usize)
    requires
        pre.sync_wf(),
        pre.mutex_list@.len() <= usize::MAX,
        (id as int) < pre.mutex_list@.len(),
        pre.mutex_list@[id as int] is Some,
        pre.mutex_list@[id as int].unwrap().wait_queue@.len() > 0,
        w == pre.mutex_list@[id as int].unwrap().wait_queue@[0],
        (w as int) < pre.tasks@.len(),
        post.tasks@.len() == pre.tasks@.len(),
        forall|u: int| 0 <= u < pre.tasks@.len() && u != w as int
            ==> post.tasks@[u] == pre.tasks@[u],
        post.tasks@[w as int] is Some,
        post.task(w as int).wait is None,
        post.mutex_list@.len() == pre.mutex_list@.len(),
        forall|m: int| 0 <= m < pre.mutex_list@.len() && m != id as int
            ==> post.mutex_list@[m] == pre.mutex_list@[m],
        post.mutex_list@[id as int] is Some,
        post.mutex_list@[id as int].unwrap().wait_queue@
            == pre.mutex_list@[id as int].unwrap().wait_queue@.remove(0),
        post.mutex_list@[id as int].unwrap().locked,
        post.mutex_list@[id as int].unwrap().blocking == pre.mutex_list@[id as int].unwrap().blocking,
        post.semaphore_list@ == pre.semaphore_list@,
        post.condvar_list@ == pre.condvar_list@,
    ensures
        post.sync_wf(),
{
    let wq0 = pre.mutex_list@[id as int].unwrap().wait_queue@;
    assert(pre.queue_wf(wq0, WaitKind::MutexQueue, id));
    assert(pre.task(w as int).wait == Some((WaitKind::MutexQueue, id)));
    assert forall|m: int|
        0 <= m < post.mutex_list@.len() && (#[trigger] post.mutex_list@[m]) is Some
        implies {
            let mx = post.mutex_list@[m].unwrap();
            &&& post.queue_wf(mx.wait_queue@, WaitKind::MutexQueue, m as usize)
            &&& (!mx.blocking ==> mx.wait_queue@.len() == 0)
            &&& (mx.wait_queue@.len() > 0 ==> mx.locked)
        }
    by {
        if m != id as int {
            assert(post.mutex_list@[m] == pre.mutex_list@[m]);
            assert(pre.queue_wf(
                pre.mutex_list@[m].unwrap().wait_queue@,
                WaitKind::MutexQueue,
                m as usize,
            ));
        let q = post.mutex_list@[m].unwrap().wait_queue@;
        assert forall|k: int| 0 <= k < q.len() implies {
            &&& post.live(#[trigger] q[k] as int)
            &&& post.task(q[k] as int).status is Blocked
            &&& post.task(q[k] as int).wait == Some((WaitKind::MutexQueue, m as usize))
        } by {
            if q[k] == w {
                assert(pre.task(w as int).wait == Some((WaitKind::MutexQueue, m as usize)));
                assert(false);
            }
        }
        } else {
            let q = post.mutex_list@[m].unwrap().wait_queue@;
            wq0.remove_ensures(0);
            assert(q =~= wq0.remove(0));
            assert forall|k: int| 0 <= k < q.len() implies {
                &&& post.live(#[trigger] q[k] as int)
                &&& post.task(q[k] as int).status is Blocked
                &&& post.task(q[k] as int).wait == Some((WaitKind::MutexQueue, m as usize))
            } by {
                assert(q[k] == wq0[k + 1]);
                assert(wq0[k + 1] != wq0[0]);
            }
            assert(q.no_duplicates()) by {
                assert forall|p: int, k: int|
                    0 <= p < q.len() && 0 <= k < q.len() && p != k
                    implies q[p] != q[k]
                by {
                    assert(q[p] == wq0[p + 1]);
                    assert(q[k] == wq0[k + 1]);
                }
            }
        }
    }
    assert forall|m: int|
        0 <= m < post.semaphore_list@.len() && (#[trigger] post.semaphore_list@[m]) is Some
        implies {
            let sm = post.semaphore_list@[m].unwrap();
            &&& post.queue_wf(sm.wait_queue@, WaitKind::SemaphoreQueue, m as usize)
            &&& (sm.wait_queue@.len() > 0 ==> sm.count == 0)
        }
    by {
        assert(post.semaphore_list@[m] == pre.semaphore_list@[m]);
        assert(pre.queue_wf(
            pre.semaphore_list@[m].unwrap().wait_queue@,
            WaitKind::SemaphoreQueue,
            m as usize,
        ));
        let q = post.semaphore_list@[m].unwrap().wait_queue@;
        assert forall|k: int| 0 <= k < q.len() implies {
            &&& post.live(#[trigger] q[k] as int)
            &&& post.task(q[k] as int).status is Blocked
            &&& post.task(q[k] as int).wait == Some((WaitKind::SemaphoreQueue, m as usize))
        } by {
            if q[k] == w {
                assert(pre.task(w as int).wait == Some((WaitKind::SemaphoreQueue, m as usize)));
                assert(false);
            }
        }
    }
    assert forall|m: int|
        0 <= m < post.condvar_list@.len() && (#[trigger] post.condvar_list@[m]) is Some
        implies post.queue_wf(
            post.condvar_list@[m].unwrap().wait_queue@,
            WaitKind::CondvarQueue,
            m as usize,
        )
    by {
        assert(post.condvar_list@[m] == pre.condvar_list@[m]);
        assert(pre.queue_wf(
            pre.condvar_list@[m].unwrap().wait_queue@,
            WaitKind::CondvarQueue,
            m as usize,
        ));
        let q = post.condvar_list@[m].unwrap().wait_queue@;
        assert forall|k: int| 0 <= k < q.len() implies {
            &&& post.live(#[trigger] q[k] as int)
            &&& post.task(q[k] as int).status is Blocked
            &&& post.task(q[k] as int).wait == Some((WaitKind::CondvarQueue, m as usize))
        } by {
            if q[k] == w {
                assert(pre.task(w as int).wait == Some((WaitKind::CondvarQueue, m as usize)));
                assert(false);
            }
        }
    }
}

/// Blocking the running task `c` and parking it on one semaphore queue keeps
/// every wait queue well-formed: a running task sat in no queue before.
proof fn lemma_sync_wf_enqueue_semaphore(pre: Kernel, post: Kernel, c: usize, id: usize)
    requires
        pre.sync_wf(),
        (c as int) < pre.tasks@.len(),
        pre.tasks@[c as int] is Some,
        !(pre.task(c as int).status is Blocked),
        post.tasks@.len() == pre.tasks@.len(),
        forall|u: int| 0 <= u < pre.tasks@.len() && u != c as int
            ==> post.tasks@[u] == pre.tasks@[u],
        post.tasks@[c as int] is Some,
        post.task(c as int).status is Blocked,
        post.task(c as int).wait == Some((WaitKind::SemaphoreQueue, id)),
        (id as int) < pre.semaphore_list@.len(),
        pre.semaphore_list@[id as int] is Some,
        post.semaphore_list@.len() == pre.semaphore_list@.len(),
        forall|m: int| 0 <= m < pre.semaphore_list@.len() && m != id as int
            ==> post.semaphore_list@[m] == pre.semaphore_list@[m],
        post.semaphore_list@[id as int] is Some,
        post.semaphore_list@[id as int].unwrap().wait_queue@
            == pre.semaphore_list@[id as int].unwrap().wait_queue@.push(c),
        post.semaphore_list@[id as int].unwrap().count == 0,
        post.mutex_list@ == pre.mutex_list@,
        post.condvar_list@ == pre.condvar_list@,
    ensures
        post.sync_wf(),
{
    assert forall|m: int|
        0 <= m < post.semaphore_list@.len() && (#[trigger] post.semaphore_list@[m]) is Some
        implies {
            let sm = post.semaphore_list@[m].unwrap();
            &&& post.queue_wf(sm.wait_queue@, WaitKind::SemaphoreQueue, m as usize)
            &&& (sm.wait_queue@.len() > 0 ==> sm.count == 0)
        }
    by {
        if m != id as int {
            assert(post.semaphore_list@[m] == pre.semaphore_list@[m]);
        }
        assert(pre.queue_wf(
            pre.semaphore_list@[m].unwrap().wait_queue@,
            WaitKind::SemaphoreQueue,
            m as usize,
        ));
        let q = post.semaphore_list@[m].unwrap().wait_queue@;
        let q0 = pre.semaphore_list@[m].unwrap().wait_queue@;
        assert forall|k: int| 0 <= k < q.len() implies {
            &&& post.live(#[trigger] q[k] as int)
            &&& post.task(q[k] as int).status is Blocked
            &&& post.task(q[k] as int).wait == Some((WaitKind::SemaphoreQueue, m as usize))
        } by {
            if m == id as int && k == q.len() - 1 {
                assert(q[k] == c);
            } else {
                assert(q[k] == q0[k]);
                assert(pre.task(q0[k] as int).status is Blocked);
                assert(q0[k] as int != c as int);
            }
        }
        assert(q.no_duplicates()) by {
            if m == id as int {
                assert forall|p: int, k: int|
                    0 <= p < q.len() && 0 <= k < q.len() && p != k
                    implies q[p] != q[k]
                by {
                    if p < q.len() - 1 && k < q.len() - 1 {
                        assert(q[p] == q0[p] && q[k] == q0[k]);
                    } else {
                        let inner: int = if p < q.len() - 1 { p } else { k };
                        assert(q[inner] == q0[inner]);
                        assert(pre.task(q0[inner] as int).status is Blocked);
                        assert(q0[inner] as int != c as int);
                    }
                }
            }
        }
    }
    assert forall|m: int|
        0 <= m < post.mutex_list@.len() && (#[trigger] post.mutex_list@[m]) is Some
        implies {
            let mx = post.mutex_list@[m].unwrap();
            &&& post.queue_wf(mx.wait_queue@, WaitKind::MutexQueue, m as usize)
            &&& (!mx.blocking ==> mx.wait_queue@.len() == 0)
            &&& (mx.wait_queue@.len() > 0 ==> mx.locked)
        }
    by {
        assert(post.mutex_list@[m] == pre.mutex_list@[m]);
        assert(pre.queue_wf(
            pre.mutex_list@[m].unwrap().wait_queue@,
            WaitKind::MutexQueue,
            m as usize,
        ));
        let q = post.mutex_list@[m].unwrap().wait_queue@;
        assert forall|k: int| 0 <= k < q.len() implies {
            &&& post.live(#[trigger] q[k] as int)
            &&& post.task(q[k] as int).status is Blocked
            &&& post.task(q[k] as int).wait == Some((WaitKind::MutexQueue, m as usize))
        } by {
            assert(pre.task(q[k] as int).status is Blocked);
            assert(q[k] as int != c as int);
        }
    }
    assert forall|m: int|
        0 <= m < post.condvar_list@.len() && (#[trigger] post.condvar_list@[m]) is Some
        implies post.queue_wf(
            post.condvar_list@[m].unwrap().wait_queue@,
            WaitKind::CondvarQueue,
            m as usize,
        )
    by {
        assert(post.condvar_list@[m] == pre.condvar_list@[m]);
        assert(pre.queue_wf(
            pre.condvar_list@[m].unwrap().wait_queue@,
            WaitKind::CondvarQueue,
            m as usize,
        ));
        let q = post.condvar_list@[m].unwrap().wait_queue@;
        assert forall|k: int| 0 <= k < q.len() implies {
            &&& post.live(#[trigger] q[k] as int)
            &&& post.task(q[k] as int).status is Blocked
            &&& post.task(q[k] as int).wait == Some((WaitKind::CondvarQueue, m as usize))
        } by {
            assert(pre.task(q[k] as int).status is Blocked);
            assert(q[k] as int != c as int);
        }
    }
}

/// Waking the front waiter `w` of one semaphore queue keeps every wait queue
/// well-formed: a waiter's recorded wait site names the one queue it sits in.
proof fn lemma_sync_wf_dequeue_semaphore(pre: Kernel, post: Kernel, w: usize, id: usize)
    requires
        pre.sync_wf(),
        pre.semaphore_list@.len() <= usize::MAX,
        (id as int) < pre.semaphore_list@.len(),
        pre.semaphore_list@[id as int] is Some,
        pre.semaphore_list@[id as int].unwrap().wait_queue@.len() > 0,
        w == pre.semaphore_list@[id as int].unwrap().wait_queue@[0],
        (w as int) < pre.tasks@.len(),
        post.tasks@.len() == pre.tasks@.len(),
        forall|u: int| 0 <= u < pre.tasks@.len() && u != w as int
            ==> post.tasks@[u] == pre.tasks@[u],
        post.tasks@[w as int] is Some,
        post.task(w as int).wait is None,
        post.semaphore_list@.len() == pre.semaphore_list@.len(),
        forall|m: int| 0 <= m < pre.semaphore_list@.len() && m != id as int
            ==> post.semaphore_list@[m] == pre.semaphore_list@[m],
        post.semaphore_list@[id as int] is Some,
        post.semaphore_list@[id as int].unwrap().wait_queue@
            == pre.semaphore_list@[id as int].unwrap().wait_queue@.remove(0),
        post.semaphore_list@[id as int].unwrap().count == pre.semaphore_list@[id as int].unwrap().count,
        post.mutex_list@ == pre.mutex_list@,
        post.condvar_list@ == pre.condvar_list@,
    ensures
        post.sync_wf(),
{
    let wq0 = pre.semaphore_list@[id as int].unwrap().wait_queue@;
    assert(pre.queue_wf(wq0, WaitKind::SemaphoreQueue, id));
    assert(pre.task(w as int).wait == Some((WaitKind::SemaphoreQueue, id)));
    assert forall|m: int|
        0 <= m < post.semaphore_list@.len() && (#[trigger] post.semaphore_list@[m]) is Some
        implies {
            let sm = post.semaphore_list@[m].unwrap();
            &&& post.queue_wf(sm.wait_queue@, WaitKind::SemaphoreQueue, m as usize)
            &&& (sm.wait_queue@.len() > 0 ==> sm.count == 0)
        }
    by {
        if m != id as int {
            assert(post.semaphore_list@[m] == pre.semaphore_list@[m]);
            assert(pre.queue_wf(
                pre.semaphore_list@[m].unwrap().wait_queue@,
                WaitKind::SemaphoreQueue,
                m as usize,
            ));
        let q = post.semaphore_list@[m].unwrap().wait_queue@;
        assert forall|k: int| 0 <= k < q.len() implies {
            &&& post.live(#[trigger] q[k] as int)
            &&& post.task(q[k] as int).status is Blocked
            &&& post.task(q[k] as int).wait == Some((WaitKind::SemaphoreQueue, m as usize))
        } by {
            if q[k] == w {
                assert(pre.task(w as int).wait == Some((WaitKind::SemaphoreQueue, m as usize)));
                assert(false);
            }
        }
        } else {
            let q = post.semaphore_list@[m].unwrap().wait_queue@;
            wq0.remove_ensures(0);
            assert(q =~= wq0.remove(0));
            assert forall|k: int| 0 <= k < q.len() implies {
                &&& post.live(#[trigger] q[k] as int)
                &&& post.task(q[k] as int).status is Blocked
                &&& post.task(q[k] as int).wait == Some((WaitKind::SemaphoreQueue, m as usize))
            } by {
                assert(q[k] == wq0[k + 1]);
                assert(wq0[k + 1] != wq0[0]);
            }
            assert(q.no_duplicates()) by {
                assert forall|p: int, k: int|
                    0 <= p < q.len() && 0 <= k < q.len() && p != k
                    implies q[p] != q[k]
                by {
                    assert(q[p] == wq0[p + 1]);
                    assert(q[k] == wq0[k + 1]);
                }
            }
        }
    }
    assert forall|m: int|
        0 <= m < post.mutex_list@.len() && (#[trigger] post.mutex_list@[m]) is Some
        implies {
            let mx = post.mutex_list@[m].unwrap();
            &&& post.queue_wf(mx.wait_queue@, WaitKind::MutexQueue, m as usize)
            &&& (!mx.blocking ==> mx.wait_queue@.len() == 0)
            &&& (mx.wait_queue@.len() > 0 ==> mx.locked)
        }
    by {
        assert(post.mutex_list@[m] == pre.mutex_list@[m]);
        assert(pre.queue_wf(
            pre.mutex_list@[m].unwrap().wait_queue@,
            WaitKind::MutexQueue,
            m as usize,
        ));
        let q = post.mutex_list@[m].unwrap().wait_queue@;
        assert forall|k: int| 0 <= k < q.len() implies {
            &&& post.live(#[trigger] q[k] as int)
            &&& post.task(q[k] as int).status is Blocked
            &&& post.task(q[k] as int).wait == Some((WaitKind::MutexQueue, m as usize))
        } by {
            if q[k] == w {
                assert(pre.task(w as int).wait == Some((WaitKind::MutexQueue, m as usize)));
                assert(false);
            }
        }
    }
    assert forall|m: int|
        0 <= m < post.condvar_list@.len() && (#[trigger] post.condvar_list@[m]) is Some
        implies post.queue_wf(
            post.condvar_list@[m].unwrap().wait_queue@,
            WaitKind::CondvarQueue,
            m as usize,
        )
    by {
        assert(post.condvar_list@[m] == pre.condvar_list@[m]);
        assert(pre.queue_wf(
            pre.condvar_list@[m].unwrap().wait_queue@,
            WaitKind::CondvarQueue,
            m as usize,
        ));
        let q = post.condvar_list@[m].unwrap().wait_queue@;
        assert forall|k: int| 0 <= k < q.len() implies {
            &&& post.live(#[trigger] q[k] as int)
            &&& post.task(q[k] as int).status is Blocked
            &&& post.task(q[k] as int).wait == Some((WaitKind::CondvarQueue, m as usize))
        } by {
            if q[k] == w {
                assert(pre.task(w as int).wait == Some((WaitKind::CondvarQueue, m as usize)));
                assert(false);
            }
        }
    }
}

/// Blocking the running task `c` and parking it on one condvar queue keeps
/// every wait queue well-formed: a running task sat in no queue before.
proof fn lemma_sync_wf_enqueue_condvar(pre: Kernel, post: Kernel, c: usize, id: usize)
    requires
        pre.sync_wf(),
        (c as int) < pre.tasks@.len(),
        pre.tasks@[c as int] is Some,
        !(pre.task(c as int).status is Blocked),
        post.tasks@.len() == pre.tasks@.len(),
        forall|u: int| 0 <= u < pre.tasks@.len() && u != c as int
            ==> post.tasks@[u] == pre.tasks@[u],
        post.tasks@[c as int] is Some,
        post.task(c as int).status is Blocked,
        post.task(c as int).wait == Some((WaitKind::CondvarQueue, id)),
        (id as int) < pre.condvar_list@.len(),
        pre.condvar_list@[id as int] is Some,
        post.condvar_list@.len() == pre.condvar_list@.len(),
        forall|m: int| 0 <= m < pre.condvar_list@.len() && m != id as int
            ==> post.condvar_list@[m] == pre.condvar_list@[m],
        post.condvar_list@[id as int] is Some,
        post.condvar_list@[id as int].unwrap().wait_queue@
            == pre.condvar_list@[id as int].unwrap().wait_queue@.push(c),
        post.mutex_list@ == pre.mutex_list@,
        post.semaphore_list@ == pre.semaphore_list@,
    ensures
        post.sync_wf(),
{
    assert forall|m: int|
        0 <= m < post.condvar_list@.len() && (#[trigger] post.condvar_list@[m]) is Some
        implies post.queue_wf(
            post.condvar_list@[m].unwrap().wait_queue@,
            WaitKind::CondvarQueue,
            m as usize,
        )
    by {
        if m != id as int {
            assert(post.condvar_list@[m] == pre.condvar_list@[m]);
        }
        assert(pre.queue_wf(
            pre.condvar_list@[m].unwrap().wait_queue@,
            WaitKind::CondvarQueue,
            m as usize,
        ));
        let q = post.condvar_list@[m].unwrap().wait_queue@;
        let q0 = pre.condvar_list@[m].unwrap().wait_queue@;
        assert forall|k: int| 0 <= k < q.len() implies {
            &&& post.live(#[trigger] q[k] as int)
            &&& post.task(q[k] as int).status is Blocked
            &&& post.task(q[k] as int).wait == Some((WaitKind::CondvarQueue, m as usize))
        } by {
            if m == id as int && k == q.len() - 1 {
                assert(q[k] == c);
            } else {
                assert(q[k] == q0[k]);
                assert(pre.task(q0[k] as int).status is Blocked);
                assert(q0[k] as int != c as int);
            }
        }
        assert(q.no_duplicates()) by {
            if m == id as int {
                assert forall|p: int, k: int|
                    0 <= p < q.len() && 0 <= k < q.len() && p != k
                    implies q[p] != q[k]
                by {
                    if p < q.len() - 1 && k < q.len() - 1 {
                        assert(q[p] == q0[p] && q[k] == q0[k]);
                    } else {
                        let inner: int = if p < q.len() - 1 { p } else { k };
                        assert(q[inner] == q0[inner]);
                        assert(pre.task(q0[inner] as int).status is Blocked);
                        assert(q0[inner] as int != c as int);
                    }
                }
            }
        }
    }
    assert forall|m: int|
        0 <= m < post.mutex_list@.len() && (#[trigger] post.mutex_list@[m]) is Some
        implies {
            let mx = post.mutex_list@[m].unwrap();
            &&& post.queue_wf(mx.wait_queue@, WaitKind::MutexQueue, m as usize)
            &&& (!mx.blocking ==> mx.wait_queue@.len() == 0)
            &&& (mx.wait_queue@.len() > 0 ==> mx.locked)
        }
    by {
        assert(post.mutex_list@[m] == pre.mutex_list@[m]);
        assert(pre.queue_wf(
            pre.mutex_list@[m].unwrap().wait_queue@,
            WaitKind::MutexQueue,
            m as usize,
        ));
        let q = post.mutex_list@[m].unwrap().wait_queue@;
        assert forall|k: int| 0 <= k < q.len() implies {
            &&& post.live(#[trigger] q[k] as int)
            &&& post.task(q[k] as int).status is Blocked
            &&& post.task(q[k] as int).wait == Some((WaitKind::MutexQueue, m as usize))
        } by {
            assert(pre.task(q[k] as int).status is Blocked);
            assert(q[k] as int != c as int);
        }
    }
    assert forall|m: int|
        0 <= m < post.semaphore_list@.len() && (#[trigger] post.semaphore_list@[m]) is Some
        implies {
            let sm = post.semaphore_list@[m].unwrap();
            &&& post.queue_wf(sm.wait_queue@, WaitKind::SemaphoreQueue, m as usize)
            &&& (sm.wait_queue@.len() > 0 ==> sm.count == 0)
        }
    by {
        assert(post.semaphore_list@[m] == pre.semaphore_list@[m]);
        assert(pre.queue_wf(
            pre.semaphore_list@[m].unwrap().wait_queue@,
            WaitKind::SemaphoreQueue,
            m as usize,
        ));
        let q = post.semaphore_list@[m].unwrap().wait_queue@;
        assert forall|k: int| 0 <= k < q.len() implies {
            &&& post.live(#[trigger] q[k] as int)
            &&& post.task(q[k] as int).status is Blocked
            &&& post.task(q[k] as int).wait == Some((WaitKind::SemaphoreQueue, m as usize))
        } by {
            assert(pre.task(q[k] as int).status is Blocked);
            assert(q[k] as int != c as int);
        }
    }
}

/// Waking the front waiter `w` of one condvar queue keeps every wait queue
/// well-formed: a waiter's recorded wait site names the one queue it sits in.
proof fn lemma_sync_wf_dequeue_condvar(pre: Kernel, post: Kernel, w: usize, id: usize)
    requires
        pre.sync_wf(),
        pre.condvar_list@.len() <= usize::MAX,
        (id as int) < pre.condvar_list@.len(),
        pre.condvar_list@[id as int] is Some,
        pre.condvar_list@[id as int].unwrap().wait_queue@.len() > 0,
        w == pre.condvar_list@[id as int].unwrap().wait_queue@[0],
        (w as int) < pre.tasks@.len(),
        post.tasks@.len() == pre.tasks@.len(),
        forall|u: int| 0 <= u < pre.tasks@.len() && u != w as int
            ==> post.tasks@[u] == pre.tasks@[u],
        post.tasks@[w as int] is Some,
        post.task(w as int).wait is None,
        post.condvar_list@.len() == pre.condvar_list@.len(),
        forall|m: int| 0 <= m < pre.condvar_list@.len() && m != id as int
            ==> post.condvar_list@[m] == pre.condvar_list@[m],
        post.condvar_list@[id as int] is Some,
        post.condvar_list@[id as int].unwrap().wait_queue@
            == pre.condvar_list@[id as int].unwrap().wait_queue@.remove(0),
        post.mutex_list@ == pre.mutex_list@,
        post.semaphore_list@ == pre.semaphore_list@,
    ensures
        post.sync_wf(),
{
    let wq0 = pre.condvar_list@[id as int].unwrap().wait_queue@;
    assert(pre.queue_wf(wq0, WaitKind::CondvarQueue, id));
    assert(pre.task(w as int).wait == Some((WaitKind::CondvarQueue, id)));
    assert forall|m: int|
        0 <= m < post.condvar_list@.len() && (#[trigger] post.condvar_list@[m]) is Some
        implies post.queue_wf(
            post.condvar_list@[m].unwrap().wait_queue@,
            WaitKind::CondvarQueue,
            m as usize,
        )
    by {
        if m != id as int {
            assert(post.condvar_list@[m] == pre.condvar_list@[m]);
            assert(pre.queue_wf(
                pre.condvar_list@[m].unwrap().wait_queue@,
                WaitKind::CondvarQueue,
                m as usize,
            ));
        let q = post.condvar_list@[m].unwrap().wait_queue@;
        assert forall|k: int| 0 <= k < q.len() implies {
            &&& post.live(#[trigger] q[k] as int)
            &&& post.task(q[k] as int).status is Blocked
            &&& post.task(q[k] as int).wait == Some((WaitKind::CondvarQueue, m as usize))
        } by {
            if q[k] == w {
                assert(pre.task(w as int).wait == Some((WaitKind::CondvarQueue, m as usize)));
                assert(false);
            }
        }
        } else {
            let q = post.condvar_list@[m].unwrap().wait_queue@;
            wq0.remove_ensures(0);
            assert(q =~= wq0.remove(0));
            assert forall|k: int| 0 <= k < q.len() implies {
                &&& post.live(#[trigger] q[k] as int)
                &&& post.task(q[k] as int).status is Blocked
                &&& post.task(q[k] as int).wait == Some((WaitKind::CondvarQueue, m as usize))
            } by {
                assert(q[k] == wq0[k + 1]);
                assert(wq0[k + 1] != wq0[0]);
            }
            assert(q.no_duplicates()) by {
                assert forall|p: int, k: int|
                    0 <= p < q.len() && 0 <= k < q.len() && p != k
                    implies q[p] != q[k]
                by {
                    assert(q[p] == wq0[p + 1]);
                    assert(q[k] == wq0[k + 1]);
                }
            }
        }
    }
    assert forall|m: int|
        0 <= m < post.mutex_list@.len() && (#[trigger] post.mutex_list@[m]) is Some
        implies {
            let mx = post.mutex_list@[m].unwrap();
            &&& post.queue_wf(mx.wait_queue@, WaitKind::MutexQueue, m as usize)
            &&& (!mx.blocking ==> mx.wait_queue@.len() == 0)
            &&& (mx.wait_queue@.len() > 0 ==> mx.locked)
        }
    by {
        assert(post.mutex_list@[m] == pre.mutex_list@[m]);
        assert(pre.queue_wf(
            pre.mutex_list@[m].unwrap().wait_queue@,
            WaitKind::MutexQueue,
            m as usize,
        ));
        let q = post.mutex_list@[m].unwrap().wait_queue@;
        assert forall|k: int| 0 <= k < q.len() implies {
            &&& post.live(#[trigger] q[k] as int)
            &&& post.task(q[k] as int).status is Blocked
            &&& post.task(q[k] as int).wait == Some((WaitKind::MutexQueue, m as usize))
        } by {
            if q[k] == w {
                assert(pre.task(w as int).wait == Some((WaitKind::MutexQueue, m as usize)));
                assert(false);
            }
        }
    }
    assert forall|m: int|
        0 <= m < post.semaphore_list@.len() && (#[trigger] post.semaphore_list@[m]) is Some
        implies {
            let sm = post.semaphore_list@[m].unwrap();
            &&& post.queue_wf(sm.wait_queue@, WaitKind::SemaphoreQueue, m as usize)
            &&& (sm.wait_queue@.len() > 0 ==> sm.count == 0)
        }
    by {
        assert(post.semaphore_list@[m] == pre.semaphore_list@[m]);
        assert(pre.queue_wf(
            pre.semaphore_list@[m].unwrap().wait_queue@,
            WaitKind::SemaphoreQueue,
            m as usize,
        ));
        let q = post.semaphore_list@[m].unwrap().wait_queue@;
        assert forall|k: int| 0 <= k < q.len() implies {
            &&& post.live(#[trigger] q[k] as int)
            &&& post.task(q[k] as int).status is Blocked
            &&& post.task(q[k] as int).wait == Some((WaitKind::SemaphoreQueue, m as usize))
        } by {
            if q[k] == w {
                assert(pre.task(w as int).wait == Some((WaitKind::SemaphoreQueue, m as usize)));
                assert(false);
            }
        }
    }
}

impl Kernel {
    /// Create a mutex of the chosen variant in the lowest free slot (else a
    /// fresh appended slot) and return its id.
    pub fn sys_mutex_create(&mut self, blocking: bool) -> (r: isize)
        requires
            old(self).wf(),
            old(self).mutex_list@.len() < isize::MAX,
        ensures
            final(self).wf(),
            0 <= r <= old(self).mutex_list@.len(),
            forall|k: int| 0 <= k < r ==> (#[trigger] old(self).mutex_list@[k]) is Some,
            r < old(self).mutex_list@.len() ==> old(self).mutex_list@[r as int] is None
                && final(self).mutex_list@.len() == old(self).mutex_list@.len(),
            r == old(self).mutex_list@.len()
                ==> final(self).mutex_list@.len() == old(self).mutex_list@.len() + 1,
            forall|k: int| 0 <= k < old(self).mutex_list@.len() && k != r
                ==> final(self).mutex_list@[k] == old(self).mutex_list@[k],
            final(self).mutex_list@[r as int] is Some,
            final(self).mutex_list@[r as int].unwrap().blocking == blocking,
            !final(self).mutex_list@[r as int].unwrap().locked,
            final(self).mutex_list@[r as int].unwrap().wait_queue@.len() == 0,
            final(self).tasks@ == old(self).tasks@,
            final(self).current == old(self).current,
            final(self).semaphore_list@ == old(self).semaphore_list@,
            final(self).condvar_list@ == old(self).condvar_list@,
            final(self).same_misc(*old(self)),
    {
        let n = self.mutex_list.len();
        let mut id: usize = 0;
        while id < n
            invariant
                old(self).wf(),
                old(self).mutex_list@.len() < isize::MAX,
                *self == *old(self),
                n == self.mutex_list@.len(),
                id <= n,
                forall|k: int| 0 <= k < id ==> (#[trigger] self.mutex_list@[k]) is Some,
            decreases n - id,
        {
            if self.mutex_list[id].is_none() {
                self.mutex_list[id] = Some(Mutex::new(blocking));
                proof {
                    lemma_tasks_wf_grow(*old(self), *self);
                    lemma_sync_wf_lists(*old(self), *self);
                    assert(self.current_wf());
                }
                return id as isize;
            }
            id = id + 1;
        }
        self.mutex_list.push(Some(Mutex::new(blocking)));
        proof {
            lemma_tasks_wf_grow(*old(self), *self);
            lemma_sync_wf_lists(*old(self), *self);
            assert(self.current_wf());
        }
        n as isize
    }

    /// Create a semaphore with `res_count` available units in the lowest
    /// free slot (else a fresh appended slot) and return its id.
    pub fn sys_semaphore_create(&mut self, res_count: usize) -> (r: isize)
        requires
            old(self).wf(),
            old(self).semaphore_list@.len() < isize::MAX,
        ensures
            final(self).wf(),
            0 <= r <= old(self).semaphore_list@.len(),
            forall|k: int| 0 <= k < r ==> (#[trigger] old(self).semaphore_list@[k]) is Some,
            r < old(self).semaphore_list@.len() ==> old(self).semaphore_list@[r as int] is None
                && final(self).semaphore_list@.len() == old(self).semaphore_list@.len(),
            r == old(self).semaphore_list@.len()
                ==> final(self).semaphore_list@.len() == old(self).semaphore_list@.len() + 1,
            forall|k: int| 0 <= k < old(self).semaphore_list@.len() && k != r
                ==> final(self).semaphore_list@[k] == old(self).semaphore_list@[k],
            final(self).semaphore_list@[r as int] is Some,
            final(self).semaphore_list@[r as int].unwrap().count == res_count,
            final(self).semaphore_list@[r as int].unwrap().wait_queue@.len() == 0,
            final(self).tasks@ == old(self).tasks@,
            final(self).current == old(self).current,
            final(self).mutex_list@ == old(self).mutex_list@,
            final(self).condvar_list@ == old(self).condvar_list@,
            final(self).same_misc(*old(self)),
    {
        let n = self.semaphore_list.len();
        let mut id: usize = 0;
        while id < n
            invariant
                old(self).wf(),
                old(self).semaphore_list@.len() < isize::MAX,
                *self == *old(self),
                n == self.semaphore_list@.len(),
                id <= n,
                forall|k: int| 0 <= k < id ==> (#[trigger] self.semaphore_list@[k]) is Some,
            decreases n - id,
        {
            if self.semaphore_list[id].is_none() {
                self.semaphore_list[id] = Some(Semaphore::new(res_count));
                proof {
                    lemma_tasks_wf_grow(*old(self), *self);
                    lemma_sync_wf_lists(*old(self), *self);
                    assert(self.current_wf());
                }
                return id as isize;
            }
            id = id + 1;
        }
        self.semaphore_list.push(Some(Semaphore::new(res_count)));
        proof {
            lemma_tasks_wf_grow(*old(self), *self);
            lemma_sync_wf_lists(*old(self), *self);
            assert(self.current_wf());
        }
        n as isize
    }

    /// Create a wait condition in the lowest free slot (else a fresh
    /// appended slot) and return its id.
    pub fn sys_condvar_create(&mut self) -> (r: isize)
        requires
            old(self).wf(),
            old(self).condvar_list@.len() < isize::MAX,
        ensures
            final(self).wf(),
            0 <= r <= old(self).condvar_list@.len(),
            forall|k: int| 0 <= k < r ==> (#[trigger] old(self).condvar_list@[k]) is Some,
            r < old(self).condvar_list@.len() ==> old(self).condvar_list@[r as int] is None
                && final(self).condvar_list@.len() == old(self).condvar_list@.len(),
            r == old(self).condvar_list@.len()
                ==> final(self).condvar_list@.len() == old(self).condvar_list@.len() + 1,
            forall|k: int| 0 <= k < old(self).condvar_list@.len() && k != r
                ==> final(self).condvar_list@[k] == old(self).condvar_list@[k],
            final(self).condvar_list@[r as int] is Some,
            final(self).condvar_list@[r as int].unwrap().wait_queue@.len() == 0,
            final(self).tasks@ == old(self).tasks@,
            final(self).current == old(self).current,
            final(self).mutex_list@ == old(self).mutex_list@,
            final(self).semaphore_list@ == old(self).semaphore_list@,
            final(self).same_misc(*old(self)),
    {
        let n = self.condvar_list.len();
        let mut id: usize = 0;
        while id < n
            invariant
                old(self).wf(),
                old(self).condvar_list@.len() < isize::MAX,
                *self == *old(self),
                n == self.condvar_list@.len(),
                id <= n,
                forall|k: int| 0 <= k < id ==> (#[trigger] self.condvar_list@[k]) is Some,
            decreases n - id,
        {
            if self.condvar_list[id].is_none() {
                self.condvar_list[id] = Some(Condvar::new());
                proof {
                    lemma_tasks_wf_grow(*old(self), *self);
                    lemma_sync_wf_lists(*old(self), *self);
                    assert(self.current_wf());
                }
                return id as isize;
            }
            id = id + 1;
        }
        self.condvar_list.push(Some(Condvar::new()));
        proof {
            lemma_tasks_wf_grow(*old(self), *self);
            lemma_sync_wf_lists(*old(self), *self);
            assert(self.current_wf());
        }
        n as isize
    }

    /// Retire an idle mutex: its slot goes back to `None` and may be reused
    /// by the next creation.
    pub fn retire_mutex(&mut self, mutex_id: usize)
        requires
            old(self).wf(),
            (mutex_id as int) < old(self).nm(),
            old(self).mutex_list@[mutex_id as int] is Some,
            !old(self).mutex_list@[mutex_id as int].unwrap().locked,
            old(self).mutex_list@[mutex_id as int].unwrap().wait_queue@.len() == 0,
        ensures
            final(self).wf(),
            final(self).mutex_list@ == old(self).mutex_list@.update(
                mutex_id as int,
                None::<Mutex>,
            ),
            final(self).tasks@ == old(self).tasks@,
            final(self).current == old(self).current,
            final(self).semaphore_list@ == old(self).semaphore_list@,
            final(self).condvar_list@ == old(self).condvar_list@,
            final(self).same_misc(*old(self)),
    {
        self.mutex_list[mutex_id] = None;
        proof {
            lemma_tasks_wf_grow(*old(self), *self);
            lemma_sync_wf_lists(*old(self), *self);
            assert(self.current_wf());
        }
    }

    /// Retire an idle semaphore: its slot goes back to `None`.
    pub fn retire_semaphore(&mut self, sem_id: usize)
        requires
            old(self).wf(),
            (sem_id as int) < old(self).ns(),
            old(self).semaphore_list@[sem_id as int] is Some,
            old(self).semaphore_list@[sem_id as int].unwrap().wait_queue@.len() == 0,
        ensures
            final(self).wf(),
            final(self).semaphore_list@ == old(self).semaphore_list@.update(
                sem_id as int,
                None::<Semaphore>,
            ),
            final(self).tasks@ == old(self).tasks@,
            final(self).current == old(self).current,
            final(self).mutex_list@ == old(self).mutex_list@,
            final(self).condvar_list@ == old(self).condvar_list@,
            final(self).same_misc(*old(self)),
    {
        self.semaphore_list[sem_id] = None;
        proof {
            lemma_tasks_wf_grow(*old(self), *self);
            lemma_sync_wf_lists(*old(self), *self);
            assert(self.current_wf());
        }
    }

    /// Retire an idle wait condition: its slot goes back to `None`.
    pub fn retire_condvar(&mut self, condvar_id: usize)
        requires
            old(self).wf(),
            (condvar_id as int) < old(self).condvar_list@.len(),
            old(self).condvar_list@[condvar_id as int] is Some,
            old(self).condvar_list@[condvar_id as int].unwrap().wait_queue@.len() == 0,
        ensures
            final(self).wf(),
            final(self).condvar_list@ == old(self).condvar_list@.update(
                condvar_id as int,
                None::<Condvar>,
            ),
            final(self).tasks@ == old(self).tasks@,
            final(self).current == old(self).current,
            final(self).mutex_list@ == old(self).mutex_list@,
            final(self).semaphore_list@ == old(self).semaphore_list@,
            final(self).same_misc(*old(self)),
    {
        self.condvar_list[condvar_id] = None;
        proof {
            lemma_tasks_wf_grow(*old(self), *self);
            lemma_sync_wf_lists(*old(self), *self);
            assert(self.current_wf());
        }
    }

    /// Map a fresh region into the current task's address space: the start
    /// must be page-aligned and the permission bits must name at least one
    /// of read/write/execute within three bits; the whole page range is
    /// scanned first and one already-mapped page fails the request with no
    /// mutation.
    pub fn sys_mmap(&mut self, start: usize, len: usize, port: usize) -> (r: isize)
        requires
            old(self).wf(),
            old(self).current is Some,
            start + len <= usize::MAX,
        ensures
            final(self).wf(),
            final(self).tasks@ == old(self).tasks@,
            final(self).current == old(self).current,
            final(self).same_lists(*old(self)),
            final(self).deadlock_detect == old(self).deadlock_detect,
            final(self).heap_bottom == old(self).heap_bottom,
            final(self).program_brk == old(self).program_brk,
            !(start % PAGE_SIZE == 0 && 0 < port <= 7)
                ==> r == -1 && final(self).memory == old(self).memory,
            start % PAGE_SIZE == 0 && 0 < port <= 7 ==> {
                let lo = vpn_lo(start as int);
                let hi = vpn_hi(start as int, len as int);
                &&& !range_all_unmapped(old(self).memory.areas@, lo, hi)
                        ==> r == -1 && final(self).memory == old(self).memory
                &&& range_all_unmapped(old(self).memory.areas@, lo, hi) ==> {
                        &&& r == 0
                        &&& lo < hi ==> final(self).memory.areas@
                            == old(self).memory.areas@.push(
                                MapArea {
                                    start_vpn: lo as usize,
                                    end_vpn: hi as usize,
                                    perm: (port * 2 + 16) as usize,
                                },
                            )
                        &&& lo >= hi ==> final(self).memory == old(self).memory
                    }
            },
    {
        if start % PAGE_SIZE != 0 {
            return -1;
        }
        if port == 0 || port > 7 {
            return -1;
        }
        let end = start + len;
        let lo = start / PAGE_SIZE;
        let hi = end / PAGE_SIZE + if end % PAGE_SIZE != 0 { 1 } else { 0 };
        if self.memory.any_page_mapped(lo, hi) {
            return -1;
        }
        if lo < hi {
            self.memory.insert_framed_area(lo, hi, port * 2 + 16);
        }
        proof {
            lemma_tasks_wf_grow(*old(self), *self);
            lemma_sync_wf_lists(*old(self), *self);
            assert(self.current_wf());
        }
        0
    }

    /// Unmap a region from the current task's address space: the start must
    /// be page-aligned; the whole page range is scanned first and one
    /// unmapped page fails the request with no mutation; removal is keyed by
    /// the range's starting page.
    pub fn sys_munmap(&mut self, start: usize, len: usize) -> (r: isize)
        requires
            old(self).wf(),
            old(self).current is Some,
            start + len <= usize::MAX,
        ensures
            final(self).wf(),
            final(self).tasks@ == old(self).tasks@,
            final(self).current == old(self).current,
            final(self).same_lists(*old(self)),
            final(self).deadlock_detect == old(self).deadlock_detect,
            final(self).heap_bottom == old(self).heap_bottom,
            final(self).program_brk == old(self).program_brk,
            start % PAGE_SIZE != 0 ==> r == -1 && final(self).memory == old(self).memory,
            start % PAGE_SIZE == 0 ==> {
                let lo = vpn_lo(start as int);
                let hi = vpn_hi(start as int, len as int);
                &&& !range_all_mapped(old(self).memory.areas@, lo, hi)
                        ==> r == -1 && final(self).memory == old(self).memory
                &&& range_all_mapped(old(self).memory.areas@, lo, hi) ==> {
                        &&& r == 0
                        &&& lo >= hi ==> final(self).memory == old(self).memory
                        &&& (lo < hi && exists|i: int|
                                0 <= i < old(self).memory.areas@.len()
                                && (#[trigger] old(self).memory.areas@[i]).start_vpn
                                    == lo as usize)
                            ==> exists|i: int|
                                0 <= i < old(self).memory.areas@.len()
                                && (#[trigger] old(self).memory.areas@[i]).start_vpn
                                    == lo as usize
                                && final(self).memory.areas@
                                    == old(self).memory.areas@.remove(i)
                        &&& (lo < hi && !(exists|i: int|
                                0 <= i < old(self).memory.areas@.len()
                                && (#[trigger] old(self).memory.areas@[i]).start_vpn
                                    == lo as usize))
                            ==> final(self).memory.areas@ == old(self).memory.areas@
                    }
            },
    {
        if start % PAGE_SIZE != 0 {
            return -1;
        }
        let end = start + len;
        let lo = start / PAGE_SIZE;
        let hi = end / PAGE_SIZE + if end % PAGE_SIZE != 0 { 1 } else { 0 };
        if self.memory.any_page_unmapped(lo, hi) {
            return -1;
        }
        if lo < hi {
            let _ = self.memory.remove_area_with_start_vpn(lo);
        }
        proof {
            lemma_tasks_wf_grow(*old(self), *self);
            lemma_sync_wf_lists(*old(self), *self);
            assert(self.current_wf());
        }
        0
    }
}


/// Distinguished status for a lock/acquire request the detector refused:
/// granting it could deadlock, so the caller was not blocked and keeps what
/// it holds.
pub const DEADLOCK_SENTINEL: isize = -0xDEAD;

impl Kernel {
    /// Enough integer headroom for the detector's work vector: available
    /// units plus one per task never overflow.
    pub open spec fn detect_headroom(self) -> bool {
        &&& self.nm() + self.ns() <= usize::MAX
        &&& self.tasks@.len() < usize::MAX
        &&& forall|s: int|
                0 <= s < self.semaphore_list@.len() && (#[trigger] self.semaphore_list@[s]) is Some
                ==> self.semaphore_list@[s].unwrap().count + self.tasks@.len() <= usize::MAX
    }

    /// The detector gate refuses the current task's mutex request.
    pub open spec fn lock_denied(self, mutex_id: usize) -> bool {
        self.deadlock_detect && crate::detect::banker_denies(
            self.tasks@,
            self.mutex_list@,
            self.semaphore_list@,
            false,
            mutex_id as int,
            self.cur(),
        )
    }

    /// The detector gate refuses the current task's semaphore request.
    pub open spec fn down_denied(self, sem_id: usize) -> bool {
        self.deadlock_detect && crate::detect::banker_denies(
            self.tasks@,
            self.mutex_list@,
            self.semaphore_list@,
            true,
            sem_id as int,
            self.cur(),
        )
    }

    /// Vacate mutex slot `i` and hand its occupant out.
    fn mutex_take(&mut self, i: usize) -> (m: Option<Mutex>)
        requires
            i < old(self).mutex_list@.len(),
        ensures
            final(self).mutex_list@ == old(self).mutex_list@.update(i as int, None::<Mutex>),
            m == old(self).mutex_list@[i as int],
            final(self).tasks@ == old(self).tasks@,
            final(self).semaphore_list@ == old(self).semaphore_list@,
            final(self).condvar_list@ == old(self).condvar_list@,
            final(self).same_misc(*old(self)),
            final(self).current == old(self).current,
    {
        let m = self.mutex_list.remove(i);
        self.mutex_list.insert(i, None);
        proof {
            old(self).mutex_list@.remove_ensures(i as int);
            assert(self.mutex_list@ =~= old(self).mutex_list@.update(i as int, None::<Mutex>));
        }
        m
    }

    /// Vacate semaphore slot `i` and hand its occupant out.
    fn semaphore_take(&mut self, i: usize) -> (m: Option<Semaphore>)
        requires
            i < old(self).semaphore_list@.len(),
        ensures
            final(self).semaphore_list@
                == old(self).semaphore_list@.update(i as int, None::<Semaphore>),
            m == old(self).semaphore_list@[i as int],
            final(self).tasks@ == old(self).tasks@,
            final(self).mutex_list@ == old(self).mutex_list@,
            final(self).condvar_list@ == old(self).condvar_list@,
            final(self).same_misc(*old(self)),
            final(self).current == old(self).current,
    {
        let m = self.semaphore_list.remove(i);
        self.semaphore_list.insert(i, None);
        proof {
            old(self).semaphore_list@.remove_ensures(i as int);
            assert(self.semaphore_list@
                =~= old(self).semaphore_list@.update(i as int, None::<Semaphore>));
        }
        m
    }

    /// Vacate wait-condition slot `i` and hand its occupant out.
    fn condvar_take(&mut self, i: usize) -> (m: Option<Condvar>)
        requires
            i < old(self).condvar_list@.len(),
        ensures
            final(self).condvar_list@
                == old(self).condvar_list@.update(i as int, None::<Condvar>),
            m == old(self).condvar_list@[i as int],
            final(self).tasks@ == old(self).tasks@,
            final(self).mutex_list@ == old(self).mutex_list@,
            final(self).semaphore_list@ == old(self).semaphore_list@,
            final(self).same_misc(*old(self)),
            final(self).current == old(self).current,
    {
        let m = self.condvar_list.remove(i);
        self.condvar_list.insert(i, None);
        proof {
            old(self).condvar_list@.remove_ensures(i as int);
            assert(self.condvar_list@
                =~= old(self).condvar_list@.update(i as int, None::<Condvar>));
        }
        m
    }

    /// Lock a mutex on behalf of the current task. With detection enabled
    /// the request is first checked and refused with the sentinel if unsafe
    /// (nothing mutated, the task does not block). Otherwise the pending
    /// request is recorded and: a free mutex is granted at once; a held
    /// blocking mutex parks the task on its queue; a held spin mutex sends
    /// the task back to ready to retry the same request when next
    /// dispatched.
    pub fn sys_mutex_lock(&mut self, mutex_id: usize) -> (r: isize)
        requires
            old(self).wf(),
            old(self).current is Some,
            (mutex_id as int) < old(self).nm(),
            old(self).mutex_list@[mutex_id as int] is Some,
            old(self).deadlock_detect ==> old(self).detect_headroom(),
            !old(self).lock_denied(mutex_id) ==> old(self).task(old(self).cur()).need is None
                || old(self).task(old(self).cur()).need == Some((false, mutex_id)),
        ensures
            final(self).wf(),
            old(self).lock_denied(mutex_id) ==> r == DEADLOCK_SENTINEL
                && *final(self) == *old(self),
            !old(self).lock_denied(mutex_id) ==> {
                let c = old(self).cur();
                let mx = old(self).mutex_list@[mutex_id as int].unwrap();
                &&& r == 0
                &&& final(self).semaphore_list@ == old(self).semaphore_list@
                &&& final(self).condvar_list@ == old(self).condvar_list@
                &&& final(self).same_misc(*old(self))
                &&& final(self).tasks@.len() == old(self).tasks@.len()
                &&& forall|u: int| 0 <= u < old(self).tasks@.len() && u != c
                        ==> final(self).tasks@[u] == old(self).tasks@[u]
                &&& final(self).live(c)
                &&& (!mx.locked ==> {
                        &&& final(self).current == old(self).current
                        &&& final(self).mutex_list@ == old(self).mutex_list@.update(
                                mutex_id as int,
                                Some(Mutex { locked: true, ..mx }),
                            )
                        &&& final(self).task(c) == Task {
                                need: None,
                                allocation: final(self).task(c).allocation,
                                ..old(self).task(c)
                            }
                        &&& final(self).task(c).allocation@
                            == if old(self).task(c).allocation@.contains((false, mutex_id)) {
                                old(self).task(c).allocation@
                            } else {
                                old(self).task(c).allocation@.push((false, mutex_id))
                            }
                    })
                &&& (mx.locked && mx.blocking ==> {
                        &&& final(self).current is None
                        &&& final(self).mutex_list@.len() == old(self).mutex_list@.len()
                        &&& forall|m: int| 0 <= m < old(self).mutex_list@.len()
                                && m != mutex_id as int
                                ==> final(self).mutex_list@[m] == old(self).mutex_list@[m]
                        &&& final(self).mutex_list@[mutex_id as int] is Some
                        &&& final(self).mutex_list@[mutex_id as int].unwrap().locked
                        &&& final(self).mutex_list@[mutex_id as int].unwrap().blocking
                        &&& final(self).mutex_list@[mutex_id as int].unwrap().wait_queue@
                            == mx.wait_queue@.push(old(self).current.unwrap())
                        &&& final(self).task(c) == Task {
                                status: TaskStatus::Blocked,
                                wait: Some((WaitKind::MutexQueue, mutex_id)),
                                need: Some((false, mutex_id)),
                                ..old(self).task(c)
                            }
                    })
                &&& (mx.locked && !mx.blocking ==> {
                        &&& final(self).current is None
                        &&& final(self).mutex_list@ == old(self).mutex_list@
                        &&& final(self).task(c) == Task {
                                status: TaskStatus::Ready,
                                need: Some((false, mutex_id)),
                                ..old(self).task(c)
                            }
                    })
            },
    {
        let c = self.current.unwrap();
        if self.deadlock_detect {
            let denied = crate::detect::deadlock_detect(
                &self.tasks,
                &self.mutex_list,
                &self.semaphore_list,
                false,
                mutex_id,
                c,
            );
            if denied {
                return DEADLOCK_SENTINEL;
            }
        }
        let mut t = self.task_take(c).unwrap();
        t.need = Some((false, mutex_id));
        let mut mx = self.mutex_take(mutex_id).unwrap();
        if !mx.locked {
            mx.locked = true;
            t.need = None;
            t.record_allocation(false, mutex_id);
            self.tasks[c] = Some(t);
            self.mutex_list[mutex_id] = Some(mx);
            proof {
                let ghost mid = Kernel { mutex_list: old(self).mutex_list, ..*self };
                lemma_sync_wf_update(*old(self), mid, c as int);
                assert(old(self).mutex_list@[mutex_id as int].unwrap().wait_queue@.len() == 0);
                lemma_sync_wf_lists(mid, *self);
                assert(self.tasks_wf());
                assert(self.current_wf());
                assert(self.mutex_list@ =~= old(self).mutex_list@.update(
                    mutex_id as int,
                    Some(Mutex {
                        locked: true,
                        ..old(self).mutex_list@[mutex_id as int].unwrap()
                    }),
                ));
            }
            0
        } else if mx.blocking {
            t.status = TaskStatus::Blocked;
            t.wait = Some((WaitKind::MutexQueue, mutex_id));
            mx.wait_queue.push(c);
            self.tasks[c] = Some(t);
            self.mutex_list[mutex_id] = Some(mx);
            self.current = None;
            proof {
                lemma_sync_wf_enqueue_mutex(*old(self), *self, c, mutex_id);
                assert(self.tasks_wf());
                assert forall|u: int|
                    0 <= u < self.tasks@.len() && (#[trigger] self.tasks@[u]) is Some
                    && self.tasks@[u].unwrap().status is Running
                    implies self.current is Some && self.cur() == u
                by {
                    if u != c as int {
                        assert(old(self).tasks@[u] == self.tasks@[u]);
                        assert(old(self).cur() == u);
                    }
                    assert(false);
                }
                assert(self.current_wf());
            }
            0
        } else {
            t.status = TaskStatus::Ready;
            self.tasks[c] = Some(t);
            self.mutex_list[mutex_id] = Some(mx);
            self.current = None;
            proof {
                let ghost mid = Kernel { mutex_list: old(self).mutex_list, ..*self };
                lemma_sync_wf_update(*old(self), mid, c as int);
                assert(self.mutex_list@ =~= old(self).mutex_list@);
                lemma_sync_wf_lists(mid, *self);
                assert(self.tasks_wf());
                assert forall|u: int|
                    0 <= u < self.tasks@.len() && (#[trigger] self.tasks@[u]) is Some
                    && self.tasks@[u].unwrap().status is Running
                    implies self.current is Some && self.cur() == u
                by {
                    if u != c as int {
                        assert(old(self).tasks@[u] == self.tasks@[u]);
                        assert(old(self).cur() == u);
                    }
                    assert(false);
                }
                assert(self.current_wf());
            }
            0
        }
    }

    /// Unlock a mutex on behalf of the current task: its ledger entry is
    /// released, and a non-empty wait queue hands ownership directly to the
    /// dequeued front waiter — the held flag stays set so no third task can
    /// steal the lock between unlock and wakeup; with nobody waiting the
    /// held flag is simply cleared.
    pub fn sys_mutex_unlock(&mut self, mutex_id: usize) -> (r: isize)
        requires
            old(self).wf(),
            old(self).current is Some,
            (mutex_id as int) < old(self).nm(),
            old(self).mutex_list@[mutex_id as int] is Some,
            old(self).mutex_list@[mutex_id as int].unwrap().blocking
                ==> old(self).mutex_list@[mutex_id as int].unwrap().locked,
        ensures
            final(self).wf(),
            r == 0,
            final(self).current == old(self).current,
            final(self).semaphore_list@ == old(self).semaphore_list@,
            final(self).condvar_list@ == old(self).condvar_list@,
            final(self).same_misc(*old(self)),
            final(self).tasks@.len() == old(self).tasks@.len(),
            final(self).mutex_list@.len() == old(self).mutex_list@.len(),
            forall|m: int| 0 <= m < old(self).mutex_list@.len() && m != mutex_id as int
                ==> final(self).mutex_list@[m] == old(self).mutex_list@[m],
            final(self).mutex_list@[mutex_id as int] is Some,
            final(self).live(old(self).cur()),
            !final(self).task(old(self).cur()).allocation@.contains((false, mutex_id)),
            forall|e: (bool, usize)| e != (false, mutex_id)
                ==> final(self).task(old(self).cur()).allocation@.contains(e)
                    == old(self).task(old(self).cur()).allocation@.contains(e),
            final(self).task(old(self).cur()).status == old(self).task(old(self).cur()).status,
            final(self).task(old(self).cur()).need == old(self).task(old(self).cur()).need,
            ({
                let mx = old(self).mutex_list@[mutex_id as int].unwrap();
                let q = mx.wait_queue@;
                if mx.blocking && q.len() > 0 {
                    let w = q[0] as int;
                    &&& final(self).mutex_list@[mutex_id as int].unwrap().locked
                    &&& final(self).mutex_list@[mutex_id as int].unwrap().blocking
                    &&& final(self).mutex_list@[mutex_id as int].unwrap().wait_queue@
                        == q.remove(0)
                    &&& w != old(self).cur()
                    &&& final(self).live(w)
                    &&& final(self).task(w).status is Ready
                    &&& final(self).task(w).wait is None
                    &&& final(self).task(w).need is None
                    &&& final(self).task(w).allocation@.contains((false, mutex_id))
                    &&& forall|u: int| 0 <= u < old(self).tasks@.len()
                            && u != old(self).cur() && u != w
                            ==> final(self).tasks@[u] == old(self).tasks@[u]
                } else {
                    &&& !final(self).mutex_list@[mutex_id as int].unwrap().locked
                    &&& final(self).mutex_list@[mutex_id as int].unwrap().blocking
                        == mx.blocking
                    &&& final(self).mutex_list@[mutex_id as int].unwrap().wait_queue@ == q
                    &&& forall|u: int| 0 <= u < old(self).tasks@.len() && u != old(self).cur()
                            ==> final(self).tasks@[u] == old(self).tasks@[u]
                }
            }),
    {
        let c = self.current.unwrap();
        self.mark_resource_released(false, mutex_id);
        let ghost s1 = *self;
        let mut mx = self.mutex_take(mutex_id).unwrap();
        if mx.blocking && mx.wait_queue.len() > 0 {
            let w = mx.wait_queue.remove(0);
            self.mutex_list[mutex_id] = Some(mx);
            proof {
                assert(s1.queue_wf(
                    s1.mutex_list@[mutex_id as int].unwrap().wait_queue@,
                    WaitKind::MutexQueue,
                    mutex_id,
                ));
                assert(s1.live(w as int));
                assert(w as int != s1.cur());
            }
            let mut wt = self.task_take(w).unwrap();
            wt.status = TaskStatus::Ready;
            wt.wait = None;
            wt.need = None;
            wt.record_allocation(false, mutex_id);
            self.tasks[w] = Some(wt);
            let n_slots = self.mutex_list.len();
            proof {
                assert(s1.mutex_list@.len() == n_slots as int);
                lemma_sync_wf_dequeue_mutex(s1, *self, w, mutex_id);
                assert(self.tasks_wf());
                assert(self.current_wf());
            }
            0
        } else {
            mx.locked = false;
            self.mutex_list[mutex_id] = Some(mx);
            proof {
                assert(s1.mutex_list@[mutex_id as int].unwrap().wait_queue@.len() == 0);
                lemma_sync_wf_lists(s1, *self);
                assert(self.tasks_wf());
                assert(self.current_wf());
            }
            0
        }
    }

    /// Acquire one semaphore unit on behalf of the current task. With
    /// detection enabled the request is first checked and refused with the
    /// sentinel if unsafe. Otherwise a spare unit is consumed at once, or
    /// the task parks on the wait queue.
    pub fn sys_semaphore_down(&mut self, sem_id: usize) -> (r: isize)
        requires
            old(self).wf(),
            old(self).current is Some,
            (sem_id as int) < old(self).ns(),
            old(self).semaphore_list@[sem_id as int] is Some,
            old(self).deadlock_detect ==> old(self).detect_headroom(),
            !old(self).down_denied(sem_id) ==> old(self).task(old(self).cur()).need is None,
        ensures
            final(self).wf(),
            old(self).down_denied(sem_id) ==> r == DEADLOCK_SENTINEL
                && *final(self) == *old(self),
            !old(self).down_denied(sem_id) ==> {
                let c = old(self).cur();
                let sm = old(self).semaphore_list@[sem_id as int].unwrap();
                &&& r == 0
                &&& final(self).mutex_list@ == old(self).mutex_list@
                &&& final(self).condvar_list@ == old(self).condvar_list@
                &&& final(self).same_misc(*old(self))
                &&& final(self).tasks@.len() == old(self).tasks@.len()
                &&& forall|u: int| 0 <= u < old(self).tasks@.len() && u != c
                        ==> final(self).tasks@[u] == old(self).tasks@[u]
                &&& final(self).live(c)
                &&& final(self).semaphore_list@.len() == old(self).semaphore_list@.len()
                &&& forall|m: int| 0 <= m < old(self).semaphore_list@.len()
                        && m != sem_id as int
                        ==> final(self).semaphore_list@[m] == old(self).semaphore_list@[m]
                &&& final(self).semaphore_list@[sem_id as int] is Some
                &&& final(self).semaphore_list@[sem_id as int].unwrap().count
                    == crate::sync::count_after_down(sm.count as nat)
                &&& crate::sync::down_grants(sm.count as nat)
                    == !(final(self).task(c).status is Blocked)
                &&& (sm.count > 0 ==> {
                        &&& final(self).current == old(self).current
                        &&& final(self).semaphore_list@[sem_id as int].unwrap().count
                            == sm.count - 1
                        &&& final(self).semaphore_list@[sem_id as int].unwrap().wait_queue@
                            == sm.wait_queue@
                        &&& final(self).task(c) == Task {
                                need: None,
                                allocation: final(self).task(c).allocation,
                                ..old(self).task(c)
                            }
                        &&& final(self).task(c).allocation@
                            == if old(self).task(c).allocation@.contains((true, sem_id)) {
                                old(self).task(c).allocation@
                            } else {
                                old(self).task(c).allocation@.push((true, sem_id))
                            }
                    })
                &&& (sm.count == 0 ==> {
                        &&& final(self).current is None
                        &&& final(self).semaphore_list@[sem_id as int].unwrap().count == 0
                        &&& final(self).semaphore_list@[sem_id as int].unwrap().wait_queue@
                            == sm.wait_queue@.push(old(self).current.unwrap())
                        &&& final(self).task(c) == Task {
                                status: TaskStatus::Blocked,
                                wait: Some((WaitKind::SemaphoreQueue, sem_id)),
                                need: Some((true, sem_id)),
                                ..old(self).task(c)
                            }
                    })
            },
    {
        let c = self.current.unwrap();
        if self.deadlock_detect {
            let denied = crate::detect::deadlock_detect(
                &self.tasks,
                &self.mutex_list,
                &self.semaphore_list,
                true,
                sem_id,
                c,
            );
            if denied {
                return DEADLOCK_SENTINEL;
            }
        }
        let mut t = self.task_take(c).unwrap();
        t.need = Some((true, sem_id));
        let mut sm = self.semaphore_take(sem_id).unwrap();
        if sm.count > 0 {
            sm.count = sm.count - 1;
            t.need = None;
            t.record_allocation(true, sem_id);
            self.tasks[c] = Some(t);
            self.semaphore_list[sem_id] = Some(sm);
            proof {
                let ghost mid = Kernel { semaphore_list: old(self).semaphore_list, ..*self };
                lemma_sync_wf_update(*old(self), mid, c as int);
                assert(old(self).semaphore_list@[sem_id as int].unwrap().wait_queue@.len()
                    == 0);
                lemma_sync_wf_lists(mid, *self);
                assert(self.tasks_wf());
                assert(self.current_wf());
            }
            0
        } else {
            t.status = TaskStatus::Blocked;
            t.wait = Some((WaitKind::SemaphoreQueue, sem_id));
            sm.wait_queue.push(c);
            self.tasks[c] = Some(t);
            self.semaphore_list[sem_id] = Some(sm);
            self.current = None;
            proof {
                lemma_sync_wf_enqueue_semaphore(*old(self), *self, c, sem_id);
                assert(self.tasks_wf());
                assert forall|u: int|
                    0 <= u < self.tasks@.len() && (#[trigger] self.tasks@[u]) is Some
                    && self.tasks@[u].unwrap().status is Running
                    implies self.current is Some && self.cur() == u
                by {
                    if u != c as int {
                        assert(old(self).tasks@[u] == self.tasks@[u]);
                        assert(old(self).cur() == u);
                    }
                    assert(false);
                }
                assert(self.current_wf());
            }
            0
        }
    }

    /// Return one semaphore unit on behalf of the current task: its ledger
    /// entry is released; a non-empty wait queue hands the returned unit
    /// directly to the dequeued front waiter (the count stays put, funding
    /// that waiter rather than becoming generally available); otherwise the
    /// count grows by one.
    pub fn sys_semaphore_up(&mut self, sem_id: usize) -> (r: isize)
        requires
            old(self).wf(),
            old(self).current is Some,
            (sem_id as int) < old(self).ns(),
            old(self).semaphore_list@[sem_id as int] is Some,
            old(self).semaphore_list@[sem_id as int].unwrap().wait_queue@.len() == 0
                ==> old(self).semaphore_list@[sem_id as int].unwrap().count < usize::MAX,
        ensures
            final(self).wf(),
            r == 0,
            final(self).current == old(self).current,
            final(self).mutex_list@ == old(self).mutex_list@,
            final(self).condvar_list@ == old(self).condvar_list@,
            final(self).same_misc(*old(self)),
            final(self).tasks@.len() == old(self).tasks@.len(),
            final(self).semaphore_list@.len() == old(self).semaphore_list@.len(),
            forall|m: int| 0 <= m < old(self).semaphore_list@.len() && m != sem_id as int
                ==> final(self).semaphore_list@[m] == old(self).semaphore_list@[m],
            final(self).semaphore_list@[sem_id as int] is Some,
            final(self).live(old(self).cur()),
            !final(self).task(old(self).cur()).allocation@.contains((true, sem_id)),
            forall|e: (bool, usize)| e != (true, sem_id)
                ==> final(self).task(old(self).cur()).allocation@.contains(e)
                    == old(self).task(old(self).cur()).allocation@.contains(e),
            final(self).task(old(self).cur()).status == old(self).task(old(self).cur()).status,
            final(self).task(old(self).cur()).need == old(self).task(old(self).cur()).need,
            ({
                let sm = old(self).semaphore_list@[sem_id as int].unwrap();
                let q = sm.wait_queue@;
                if q.len() > 0 {
                    let w = q[0] as int;
                    &&& final(self).semaphore_list@[sem_id as int].unwrap().count == sm.count
                    &&& final(self).semaphore_list@[sem_id as int].unwrap().wait_queue@
                        == q.remove(0)
                    &&& w != old(self).cur()
                    &&& final(self).live(w)
                    &&& final(self).task(w).status is Ready
                    &&& final(self).task(w).wait is None
                    &&& final(self).task(w).need is None
                    &&& final(self).task(w).allocation@.contains((true, sem_id))
                    &&& forall|u: int| 0 <= u < old(self).tasks@.len()
                            && u != old(self).cur() && u != w
                            ==> final(self).tasks@[u] == old(self).tasks@[u]
                } else {
                    &&& final(self).semaphore_list@[sem_id as int].unwrap().count
                        == sm.count + 1
                    &&& final(self).semaphore_list@[sem_id as int].unwrap().wait_queue@ == q
                    &&& forall|u: int| 0 <= u < old(self).tasks@.len() && u != old(self).cur()
                            ==> final(self).tasks@[u] == old(self).tasks@[u]
                }
            }),
    {
        let c = self.current.unwrap();
        self.mark_resource_released(true, sem_id);
        let ghost s1 = *self;
        let mut sm = self.semaphore_take(sem_id).unwrap();
        if sm.wait_queue.len() > 0 {
            let w = sm.wait_queue.remove(0);
            self.semaphore_list[sem_id] = Some(sm);
            proof {
                assert(s1.queue_wf(
                    s1.semaphore_list@[sem_id as int].unwrap().wait_queue@,
                    WaitKind::SemaphoreQueue,
                    sem_id,
                ));
                assert(s1.live(w as int));
                assert(w as int != s1.cur());
            }
            let mut wt = self.task_take(w).unwrap();
            wt.status = TaskStatus::Ready;
            wt.wait = None;
            wt.need = None;
            wt.record_allocation(true, sem_id);
            self.tasks[w] = Some(wt);
            let n_slots = self.semaphore_list.len();
            proof {
                assert(s1.semaphore_list@.len() == n_slots as int);
                lemma_sync_wf_dequeue_semaphore(s1, *self, w, sem_id);
                assert(self.tasks_wf());
                assert(self.current_wf());
            }
            0
        } else {
            sm.count = sm.count + 1;
            self.semaphore_list[sem_id] = Some(sm);
            proof {
                assert(s1.semaphore_list@[sem_id as int].unwrap().wait_queue@.len() == 0);
                lemma_sync_wf_lists(s1, *self);
                assert(self.tasks_wf());
                assert(self.current_wf());
            }
            0
        }
    }

    /// Wake exactly one waiter of a wait condition if any is parked there,
    /// else do nothing. The woken task keeps its pending request: it must
    /// re-acquire the associated mutex itself.
    pub fn sys_condvar_signal(&mut self, condvar_id: usize) -> (r: isize)
        requires
            old(self).wf(),
            (condvar_id as int) < old(self).condvar_list@.len(),
            old(self).condvar_list@[condvar_id as int] is Some,
        ensures
            final(self).wf(),
            r == 0,
            final(self).current == old(self).current,
            final(self).mutex_list@ == old(self).mutex_list@,
            final(self).semaphore_list@ == old(self).semaphore_list@,
            final(self).same_misc(*old(self)),
            final(self).tasks@.len() == old(self).tasks@.len(),
            final(self).condvar_list@.len() == old(self).condvar_list@.len(),
            forall|m: int| 0 <= m < old(self).condvar_list@.len() && m != condvar_id as int
                ==> final(self).condvar_list@[m] == old(self).condvar_list@[m],
            final(self).condvar_list@[condvar_id as int] is Some,
            ({
                let q = old(self).condvar_list@[condvar_id as int].unwrap().wait_queue@;
                if q.len() > 0 {
                    let w = q[0] as int;
                    &&& final(self).condvar_list@[condvar_id as int].unwrap().wait_queue@
                        == q.remove(0)
                    &&& final(self).live(w)
                    &&& final(self).task(w).status is Ready
                    &&& final(self).task(w).wait is None
                    &&& final(self).task(w).need == old(self).task(w).need
                    &&& final(self).task(w).allocation@ == old(self).task(w).allocation@
                    &&& forall|u: int| 0 <= u < old(self).tasks@.len() && u != w
                            ==> final(self).tasks@[u] == old(self).tasks@[u]
                } else {
                    &&& final(self).condvar_list@[condvar_id as int].unwrap().wait_queue@ == q
                    &&& final(self).tasks@ == old(self).tasks@
                }
            }),
    {
        let mut cv = self.condvar_take(condvar_id).unwrap();
        if cv.wait_queue.len() > 0 {
            let w = cv.wait_queue.remove(0);
            self.condvar_list[condvar_id] = Some(cv);
            proof {
                assert(old(self).queue_wf(
                    old(self).condvar_list@[condvar_id as int].unwrap().wait_queue@,
                    WaitKind::CondvarQueue,
                    condvar_id,
                ));
                assert(old(self).live(w as int));
            }
            let mut wt = self.task_take(w).unwrap();
            wt.status = TaskStatus::Ready;
            wt.wait = None;
            self.tasks[w] = Some(wt);
            let n_slots = self.condvar_list.len();
            proof {
                assert(old(self).condvar_list@.len() == n_slots as int);
                lemma_sync_wf_dequeue_condvar(*old(self), *self, w, condvar_id);
                assert(self.tasks_wf());
                assert(self.current_wf());
            }
            0
        } else {
            self.condvar_list[condvar_id] = Some(cv);
            proof {
                assert(self.condvar_list@ =~= old(self).condvar_list@);
                lemma_sync_wf_lists(*old(self), *self);
                assert(self.tasks_wf());
                assert(self.current_wf());
            }
            0
        }
    }

    /// Wait on a condition while holding the associated mutex: the caller's
    /// ledger entry for the mutex is released and its re-acquisition
    /// recorded as the pending request, the mutex is unlocked with the same
    /// direct-handoff rule as `sys_mutex_unlock`, and the caller parks on
    /// the condition queue. Re-acquiring the mutex after wakeup is the
    /// caller's own business.
    pub fn sys_condvar_wait(&mut self, condvar_id: usize, mutex_id: usize) -> (r: isize)
        requires
            old(self).wf(),
            old(self).current is Some,
            (condvar_id as int) < old(self).condvar_list@.len(),
            old(self).condvar_list@[condvar_id as int] is Some,
            (mutex_id as int) < old(self).nm(),
            old(self).mutex_list@[mutex_id as int] is Some,
            old(self).mutex_list@[mutex_id as int].unwrap().blocking
                ==> old(self).mutex_list@[mutex_id as int].unwrap().locked,
            old(self).task(old(self).cur()).need is None,
        ensures
            final(self).wf(),
            r == 0,
            final(self).current is None,
            final(self).semaphore_list@ == old(self).semaphore_list@,
            final(self).same_misc(*old(self)),
            final(self).tasks@.len() == old(self).tasks@.len(),
            final(self).live(old(self).cur()),
            final(self).task(old(self).cur()).status is Blocked,
            final(self).task(old(self).cur()).wait
                == Some((WaitKind::CondvarQueue, condvar_id)),
            final(self).task(old(self).cur()).need == Some((false, mutex_id)),
            !final(self).task(old(self).cur()).allocation@.contains((false, mutex_id)),
            forall|e: (bool, usize)| e != (false, mutex_id)
                ==> final(self).task(old(self).cur()).allocation@.contains(e)
                    == old(self).task(old(self).cur()).allocation@.contains(e),
            final(self).condvar_list@.len() == old(self).condvar_list@.len(),
            forall|m: int| 0 <= m < old(self).condvar_list@.len() && m != condvar_id as int
                ==> final(self).condvar_list@[m] == old(self).condvar_list@[m],
            final(self).condvar_list@[condvar_id as int] is Some,
            final(self).condvar_list@[condvar_id as int].unwrap().wait_queue@
                == old(self).condvar_list@[condvar_id as int].unwrap().wait_queue@.push(
                    old(self).current.unwrap(),
                ),
            final(self).mutex_list@.len() == old(self).mutex_list@.len(),
            forall|m: int| 0 <= m < old(self).mutex_list@.len() && m != mutex_id as int
                ==> final(self).mutex_list@[m] == old(self).mutex_list@[m],
            final(self).mutex_list@[mutex_id as int] is Some,
            ({
                let mx = old(self).mutex_list@[mutex_id as int].unwrap();
                let q = mx.wait_queue@;
                if mx.blocking && q.len() > 0 {
                    let w = q[0] as int;
                    &&& final(self).mutex_list@[mutex_id as int].unwrap().locked
                    &&& final(self).mutex_list@[mutex_id as int].unwrap().wait_queue@
                        == q.remove(0)
                    &&& w != old(self).cur()
                    &&& final(self).live(w)
                    &&& final(self).task(w).status is Ready
                    &&& final(self).task(w).wait is None
                    &&& final(self).task(w).need is None
                    &&& final(self).task(w).allocation@.contains((false, mutex_id))
                    &&& forall|u: int| 0 <= u < old(self).tasks@.len()
                            && u != old(self).cur() && u != w
                            ==> final(self).tasks@[u] == old(self).tasks@[u]
                } else {
                    &&& !final(self).mutex_list@[mutex_id as int].unwrap().locked
                    &&& final(self).mutex_list@[mutex_id as int].unwrap().wait_queue@ == q
                    &&& forall|u: int| 0 <= u < old(self).tasks@.len() && u != old(self).cur()
                            ==> final(self).tasks@[u] == old(self).tasks@[u]
                }
            }),
    {
        let c = self.current.unwrap();
        self.mark_resource_released(false, mutex_id);
        self.set_need_resource(false, mutex_id);
        let ghost s2 = *self;
        let mut mx = self.mutex_take(mutex_id).unwrap();
        if mx.blocking && mx.wait_queue.len() > 0 {
            let w = mx.wait_queue.remove(0);
            self.mutex_list[mutex_id] = Some(mx);
            proof {
                assert(s2.queue_wf(
                    s2.mutex_list@[mutex_id as int].unwrap().wait_queue@,
                    WaitKind::MutexQueue,
                    mutex_id,
                ));
                assert(s2.live(w as int));
                assert(w as int != s2.cur());
            }
            let mut wt = self.task_take(w).unwrap();
            wt.status = TaskStatus::Ready;
            wt.wait = None;
            wt.need = None;
            wt.record_allocation(false, mutex_id);
            self.tasks[w] = Some(wt);
            let n_slots = self.mutex_list.len();
            proof {
                assert(s2.mutex_list@.len() == n_slots as int);
                lemma_sync_wf_dequeue_mutex(s2, *self, w, mutex_id);
                assert(self.tasks_wf());
                assert(self.current_wf());
            }
        } else {
            mx.locked = false;
            self.mutex_list[mutex_id] = Some(mx);
            proof {
                assert(s2.mutex_list@[mutex_id as int].unwrap().wait_queue@.len() == 0);
                lemma_sync_wf_lists(s2, *self);
                assert(self.tasks_wf());
                assert(self.current_wf());
            }
        }
        let ghost s3 = *self;
        let mut cv = self.condvar_take(condvar_id).unwrap();
        let mut t = self.task_take(c).unwrap();
        t.status = TaskStatus::Blocked;
        t.wait = Some((WaitKind::CondvarQueue, condvar_id));
        cv.wait_queue.push(c);
        self.tasks[c] = Some(t);
        self.condvar_list[condvar_id] = Some(cv);
        self.current = None;
        proof {
            lemma_sync_wf_enqueue_condvar(s3, *self, c, condvar_id);
            assert(self.tasks_wf());
            assert forall|u: int|
                0 <= u < self.tasks@.len() && (#[trigger] self.tasks@[u]) is Some
                && self.tasks@[u].unwrap().status is Running
                implies self.current is Some && self.cur() == u
            by {
                if u != c as int {
                    assert(s3.tasks@[u] == self.tasks@[u]);
                    assert(s3.cur() == u);
                }
                assert(false);
            }
            assert(self.current_wf());
        }
        0
    }
}


} // verus!
