//! Synchronization primitive state: mutex (spin or blocking variant),
//! counting semaphore, and wait condition.
//!
//! Each primitive is pure state shared by the tasks of one process; the
//! operations that also move tasks between `Ready` and `Blocked` live on the
//! kernel, which owns both the primitives and the task table. Wait queues
//! hold task ids in arrival order; the front leaves first.

use vstd::prelude::*;

verus! {

/// Binary resource of capacity one. The variant is chosen at creation time:
/// a spin mutex makes a failed acquirer yield and retry (its queue stays
/// empty), a blocking mutex parks it on the wait queue.
pub struct Mutex {
    /// `true` for the blocking variant, `false` for the spin variant.
    pub blocking: bool,
    /// The held flag; observable without side effects.
    pub locked: bool,
    /// Task ids parked on this mutex (blocking variant only).
    pub wait_queue: Vec<usize>,
}

/// Counting resource: `count` available units plus a queue of excess waiters.
pub struct Semaphore {
    /// Available units. Never negative: waiters beyond the available units
    /// sit in the queue instead.
    pub count: usize,
    /// Task ids parked on this semaphore.
    pub wait_queue: Vec<usize>,
}

/// Wait condition: a queue and nothing else.
pub struct Condvar {
    /// Task ids parked on this condition.
    pub wait_queue: Vec<usize>,
}

impl Mutex {
    /// A fresh, unheld mutex of the chosen variant.
    pub fn new(blocking: bool) -> (r: Mutex)
        ensures
            r.blocking == blocking,
            !r.locked,
            r.wait_queue@.len() == 0,
    {
        Mutex { blocking, locked: false, wait_queue: Vec::new() }
    }

    /// The held flag, read without side effects (the detector's view of
    /// this resource's availability).
    pub fn is_locked(&self) -> (r: bool)
        ensures
            r == self.locked,
    {
        self.locked
    }
}

impl Semaphore {
    /// A fresh semaphore holding `res_count` available units.
    pub fn new(res_count: usize) -> (r: Semaphore)
        ensures
            r.count == res_count,
            r.wait_queue@.len() == 0,
    {
        Semaphore { count: res_count, wait_queue: Vec::new() }
    }
}

impl Condvar {
    /// A fresh wait condition with nobody waiting.
    pub fn new() -> (r: Condvar)
        ensures
            r.wait_queue@.len() == 0,
    {
        Condvar { wait_queue: Vec::new() }
    }
}

/// One `down` on a semaphore with `count` spare units succeeds immediately
/// exactly when a unit is spare; the transition consumes it.
pub open spec fn down_grants(count: nat) -> bool {
    count > 0
}

/// Spare units left after one `down`: a grant consumes one, a blocked caller
/// consumes none.
pub open spec fn count_after_down(count: nat) -> nat {
    if count > 0 {
        (count - 1) as nat
    } else {
        count
    }
}

/// How many of `k` immediate `down` attempts on a fresh semaphore with
/// `count` spare units end up blocked, each attempt seeing the counts the
/// previous ones left behind.
pub open spec fn downs_blocked(count: nat, k: nat) -> nat
    decreases k,
{
    if k == 0 {
        0
    } else if down_grants(count) {
        downs_blocked(count_after_down(count), (k - 1) as nat)
    } else {
        downs_blocked(count, (k - 1) as nat) + 1
    }
}

/// Law: a semaphore initialized with `n` units admits exactly `n` immediate
/// `down` calls before one blocks — out of `k` attempts, none blocks while
/// `k <= n`, and exactly `k - n` block beyond that.
pub proof fn lemma_semaphore_admits_exactly(n: nat, k: nat)
    ensures
        downs_blocked(n, k) == if k <= n {
            0nat
        } else {
            (k - n) as nat
        },
    decreases k,
{
    if k > 0 {
        if down_grants(n) {
            lemma_semaphore_admits_exactly((n - 1) as nat, (k - 1) as nat);
        } else {
            lemma_semaphore_admits_exactly(n, (k - 1) as nat);
        }
    }
}


} // verus!
