use os_core::kernel::Kernel;
use os_core::kernel::DEADLOCK_SENTINEL;
use os_core::task::TaskInfo;
use os_core::task::TaskStatus;

fn holds(k: &Kernel, tid: usize, flag: bool, id: usize) -> bool {
    k.tasks[tid]
        .as_ref()
        .unwrap()
        .allocation
        .iter()
        .any(|e| *e == (flag, id))
}

fn status(k: &Kernel, tid: usize) -> TaskStatus {
    k.tasks[tid].as_ref().unwrap().status
}

#[test]
fn stride_scheduling_picks_min_stride_each_round() {
    let mut k = Kernel::new(0);
    let a = k.spawn_task(4); // pass 65536 / 4 = 16384
    let b = k.spawn_task(2); // pass 65536 / 2 = 32768
    let mut dispatched: Vec<usize> = Vec::new();
    for _ in 0..12 {
        let t = k.run_tasks().unwrap();
        dispatched.push(t);
        assert_eq!(k.sys_yield(), 0);
    }
    // each round picks the minimum-stride ready task, ties to the lowest id
    assert_eq!(dispatched, vec![a, b, a, a, b, a, a, b, a, a, b, a]);
    // over the run, the double-priority task is dispatched twice as often
    let a_runs = dispatched.iter().filter(|t| **t == a).count();
    let b_runs = dispatched.iter().filter(|t| **t == b).count();
    assert_eq!(a_runs, 8);
    assert_eq!(b_runs, 4);
}

#[test]
fn run_tasks_with_nobody_ready_is_a_no_op() {
    let mut k = Kernel::new(0);
    assert_eq!(k.run_tasks(), None);
    k.spawn_task(1);
    let t = k.run_tasks().unwrap();
    assert_eq!(t, 0);
    k.sys_exit(0);
    assert!(k.tasks[0].is_none());
    assert_eq!(k.run_tasks(), None);
}

#[test]
fn sleep_blocks_until_timer_wakeup() {
    let mut k = Kernel::new(0);
    let a = k.spawn_task(1);
    k.run_tasks().unwrap();
    assert_eq!(k.sys_sleep(50), 0);
    assert_eq!(status(&k, a), TaskStatus::Blocked);
    assert_eq!(k.current_task(), None);
    k.wakeup_task(a);
    assert_eq!(status(&k, a), TaskStatus::Ready);
}

#[test]
fn enable_deadlock_detect_validates_input() {
    let mut k = Kernel::new(0);
    assert_eq!(k.sys_enable_deadlock_detect(2), -1);
    assert!(!k.deadlock_detect);
    assert_eq!(k.sys_enable_deadlock_detect(1), 0);
    assert!(k.deadlock_detect);
    assert_eq!(k.sys_enable_deadlock_detect(0), 0);
    assert!(!k.deadlock_detect);
}

#[test]
fn resource_id_allocation_reuses_lowest_free_slot() {
    let mut k = Kernel::new(0);
    assert_eq!(k.sys_mutex_create(true), 0);
    assert_eq!(k.sys_mutex_create(false), 1);
    k.retire_mutex(0);
    assert_eq!(k.sys_mutex_create(true), 0);
    assert_eq!(k.sys_mutex_create(true), 2);

    assert_eq!(k.sys_semaphore_create(3), 0);
    assert_eq!(k.sys_semaphore_create(1), 1);
    k.retire_semaphore(0);
    assert_eq!(k.sys_semaphore_create(5), 0);

    assert_eq!(k.sys_condvar_create(), 0);
    assert_eq!(k.sys_condvar_create(), 1);
    k.retire_condvar(1);
    assert_eq!(k.sys_condvar_create(), 1);
    assert_eq!(k.sys_condvar_create(), 2);
}

#[test]
fn blocking_mutex_unlock_hands_off_directly() {
    let mut k = Kernel::new(0);
    let a = k.spawn_task(1);
    let b = k.spawn_task(1);
    assert_eq!(k.sys_mutex_create(true), 0);
    assert_eq!(k.run_tasks(), Some(a));
    assert_eq!(k.sys_mutex_lock(0), 0);
    assert!(holds(&k, a, false, 0));
    assert_eq!(k.sys_yield(), 0);
    assert_eq!(k.run_tasks(), Some(b));
    assert_eq!(k.sys_mutex_lock(0), 0);
    assert_eq!(status(&k, b), TaskStatus::Blocked);
    assert_eq!(k.current_task(), None);
    assert_eq!(k.run_tasks(), Some(a));
    assert_eq!(k.sys_mutex_unlock(0), 0);
    // ownership moved straight to the dequeued waiter: the held flag never
    // dropped, and the held-by relationship is the woken task
    assert!(k.mutex_list[0].as_ref().unwrap().locked);
    assert!(k.mutex_list[0].as_ref().unwrap().wait_queue.is_empty());
    assert!(!holds(&k, a, false, 0));
    assert!(holds(&k, b, false, 0));
    assert_eq!(status(&k, b), TaskStatus::Ready);
}

#[test]
fn spin_mutex_yields_and_retries() {
    let mut k = Kernel::new(0);
    let a = k.spawn_task(1);
    let b = k.spawn_task(1);
    assert_eq!(k.sys_mutex_create(false), 0);
    assert_eq!(k.run_tasks(), Some(a));
    assert_eq!(k.sys_mutex_lock(0), 0);
    assert_eq!(k.sys_yield(), 0);
    assert_eq!(k.run_tasks(), Some(b));
    // held spin mutex: the caller yields instead of parking on a queue
    assert_eq!(k.sys_mutex_lock(0), 0);
    assert_eq!(status(&k, b), TaskStatus::Ready);
    assert!(k.mutex_list[0].as_ref().unwrap().wait_queue.is_empty());
    assert_eq!(k.run_tasks(), Some(a));
    assert_eq!(k.sys_mutex_unlock(0), 0);
    assert!(!k.mutex_list[0].as_ref().unwrap().locked);
    assert_eq!(k.sys_yield(), 0);
    assert_eq!(k.run_tasks(), Some(b));
    // the retried request is granted now
    assert_eq!(k.sys_mutex_lock(0), 0);
    assert!(holds(&k, b, false, 0));
}

#[test]
fn semaphore_admits_exactly_its_count() {
    let mut k = Kernel::new(0);
    let a = k.spawn_task(1);
    let b = k.spawn_task(1);
    assert_eq!(k.sys_semaphore_create(2), 0);
    assert_eq!(k.run_tasks(), Some(a));
    // two units: two immediate grants
    assert_eq!(k.sys_semaphore_down(0), 0);
    assert_eq!(k.semaphore_list[0].as_ref().unwrap().count, 1);
    assert_eq!(k.sys_semaphore_down(0), 0);
    assert_eq!(k.semaphore_list[0].as_ref().unwrap().count, 0);
    assert_eq!(status(&k, a), TaskStatus::Running);
    // the third acquire blocks
    assert_eq!(k.sys_semaphore_down(0), 0);
    assert_eq!(status(&k, a), TaskStatus::Blocked);
    assert_eq!(k.semaphore_list[0].as_ref().unwrap().wait_queue, vec![a]);
    // an up from another task funds the woken waiter directly
    assert_eq!(k.run_tasks(), Some(b));
    assert_eq!(k.sys_semaphore_up(0), 0);
    assert_eq!(status(&k, a), TaskStatus::Ready);
    assert_eq!(k.semaphore_list[0].as_ref().unwrap().count, 0);
    assert!(k.semaphore_list[0].as_ref().unwrap().wait_queue.is_empty());
    assert!(holds(&k, a, true, 0));
}

#[test]
fn semaphore_up_without_waiters_grows_count() {
    let mut k = Kernel::new(0);
    let _a = k.spawn_task(1);
    assert_eq!(k.sys_semaphore_create(0), 0);
    k.run_tasks().unwrap();
    assert_eq!(k.sys_semaphore_up(0), 0);
    assert_eq!(k.semaphore_list[0].as_ref().unwrap().count, 1);
}

#[test]
fn condvar_wait_releases_mutex_and_signal_wakes_one() {
    let mut k = Kernel::new(0);
    let a = k.spawn_task(1);
    let b = k.spawn_task(1);
    assert_eq!(k.sys_mutex_create(true), 0);
    assert_eq!(k.sys_condvar_create(), 0);
    assert_eq!(k.run_tasks(), Some(a));
    assert_eq!(k.sys_mutex_lock(0), 0);
    assert_eq!(k.sys_condvar_wait(0, 0), 0);
    // the caller parked on the condition; the mutex was released outright
    // since nobody else waited on it
    assert_eq!(status(&k, a), TaskStatus::Blocked);
    assert!(!k.mutex_list[0].as_ref().unwrap().locked);
    assert!(!holds(&k, a, false, 0));
    assert_eq!(k.condvar_list[0].as_ref().unwrap().wait_queue, vec![a]);
    // a signal wakes exactly the one waiter; re-acquiring is its own business
    assert_eq!(k.run_tasks(), Some(b));
    assert_eq!(k.sys_condvar_signal(0), 0);
    assert_eq!(status(&k, a), TaskStatus::Ready);
    assert!(k.condvar_list[0].as_ref().unwrap().wait_queue.is_empty());
    assert_eq!(k.sys_yield(), 0);
    assert_eq!(k.run_tasks(), Some(a));
    assert_eq!(k.sys_mutex_lock(0), 0);
    assert!(holds(&k, a, false, 0));
    // signalling with nobody waiting is a no-op
    assert_eq!(k.sys_condvar_signal(0), 0);
}

#[test]
fn cross_requests_with_detection_return_sentinel_and_nobody_blocks() {
    let mut k = Kernel::new(0);
    let a = k.spawn_task(1);
    let b = k.spawn_task(1);
    assert_eq!(k.sys_mutex_create(true), 0);
    assert_eq!(k.sys_mutex_create(true), 1);
    assert_eq!(k.sys_enable_deadlock_detect(1), 0);
    assert_eq!(k.run_tasks(), Some(a));
    assert_eq!(k.sys_mutex_lock(0), 0); // A holds M1
    assert_eq!(k.sys_yield(), 0);
    assert_eq!(k.run_tasks(), Some(b));
    assert_eq!(k.sys_mutex_lock(1), 0); // B holds M2
    k.set_need_resource(false, 0); // B is requesting M1
    assert_eq!(k.sys_yield(), 0);
    assert_eq!(k.run_tasks(), Some(a));
    // A requesting M2 against B's pending M1 request: refused, not blocked
    assert_eq!(k.sys_mutex_lock(1), DEADLOCK_SENTINEL);
    assert_eq!(status(&k, a), TaskStatus::Running);
    assert!(!holds(&k, a, false, 1));
    k.set_need_resource(false, 1); // A is requesting M2
    assert_eq!(k.sys_yield(), 0);
    assert_eq!(k.run_tasks(), Some(b));
    // B's mirrored request is refused the same way
    assert_eq!(k.sys_mutex_lock(0), DEADLOCK_SENTINEL);
    assert_eq!(status(&k, b), TaskStatus::Running);
    assert!(!holds(&k, b, false, 0));
    // both tasks keep everything they held
    assert!(holds(&k, a, false, 0));
    assert!(holds(&k, b, false, 1));
}

#[test]
fn same_scenario_with_detection_disabled_blocks_both() {
    let mut k = Kernel::new(0);
    let a = k.spawn_task(1);
    let b = k.spawn_task(1);
    assert_eq!(k.sys_mutex_create(true), 0);
    assert_eq!(k.sys_mutex_create(true), 1);
    assert_eq!(k.run_tasks(), Some(a));
    assert_eq!(k.sys_mutex_lock(0), 0);
    assert_eq!(k.sys_yield(), 0);
    assert_eq!(k.run_tasks(), Some(b));
    assert_eq!(k.sys_mutex_lock(1), 0);
    assert_eq!(k.sys_yield(), 0);
    assert_eq!(k.run_tasks(), Some(a));
    assert_eq!(k.sys_mutex_lock(1), 0); // no sentinel: A just blocks
    assert_eq!(status(&k, a), TaskStatus::Blocked);
    assert_eq!(k.run_tasks(), Some(b));
    assert_eq!(k.sys_mutex_lock(0), 0); // no sentinel: B just blocks
    assert_eq!(status(&k, b), TaskStatus::Blocked);
    assert_eq!(k.run_tasks(), None);
}

#[test]
fn detection_allows_a_safe_request() {
    let mut k = Kernel::new(0);
    let a = k.spawn_task(1);
    let b = k.spawn_task(1);
    assert_eq!(k.sys_mutex_create(true), 0);
    assert_eq!(k.sys_enable_deadlock_detect(1), 0);
    assert_eq!(k.run_tasks(), Some(a));
    assert_eq!(k.sys_mutex_lock(0), 0);
    assert_eq!(k.sys_yield(), 0);
    assert_eq!(k.run_tasks(), Some(b));
    // B's request for the held mutex is safe (A can finish and release), so
    // B blocks normally instead of being refused
    assert_eq!(k.sys_mutex_lock(0), 0);
    assert_eq!(status(&k, b), TaskStatus::Blocked);
}

#[test]
fn semaphore_deadlock_is_detected_across_classes() {
    let mut k = Kernel::new(0);
    let a = k.spawn_task(1);
    let b = k.spawn_task(1);
    assert_eq!(k.sys_mutex_create(true), 0);
    assert_eq!(k.sys_semaphore_create(1), 0);
    assert_eq!(k.sys_enable_deadlock_detect(1), 0);
    assert_eq!(k.run_tasks(), Some(a));
    assert_eq!(k.sys_mutex_lock(0), 0); // A holds the mutex
    assert_eq!(k.sys_yield(), 0);
    assert_eq!(k.run_tasks(), Some(b));
    assert_eq!(k.sys_semaphore_down(0), 0); // B holds the one unit
    k.set_need_resource(false, 0); // B is requesting the mutex
    assert_eq!(k.sys_yield(), 0);
    assert_eq!(k.run_tasks(), Some(a));
    // A requesting the unit B holds closes the cycle
    assert_eq!(k.sys_semaphore_down(0), DEADLOCK_SENTINEL);
    assert_eq!(status(&k, a), TaskStatus::Running);
}

#[test]
fn released_resource_ledger_tolerates_absent_entry() {
    let mut k = Kernel::new(0);
    let a = k.spawn_task(1);
    assert_eq!(k.sys_mutex_create(false), 0);
    assert_eq!(k.run_tasks(), Some(a));
    // releasing something never held is a silent no-op
    k.mark_resource_released(false, 0);
    assert!(k.tasks[a].as_ref().unwrap().allocation.is_empty());
    // a spin mutex unlock clears the flag unconditionally
    assert_eq!(k.sys_mutex_unlock(0), 0);
    assert!(!k.mutex_list[0].as_ref().unwrap().locked);
}

#[test]
fn task_info_reports_status_and_syscall_counters() {
    let mut k = Kernel::new(0);
    let a = k.spawn_task(1);
    assert_eq!(k.run_tasks(), Some(a));
    k.update_syscall_times(5);
    k.update_syscall_times(5);
    k.update_syscall_times(499);
    k.update_syscall_times(12345); // out of range: ignored
    let mut ti = TaskInfo {
        status: TaskStatus::Ready,
        syscall_times: Vec::new(),
        time: 0,
    };
    assert_eq!(k.sys_task_info(&mut ti), 0);
    assert_eq!(ti.status, TaskStatus::Running);
    assert_eq!(ti.syscall_times[5], 2);
    assert_eq!(ti.syscall_times[499], 1);
    assert_eq!(ti.syscall_times[0], 0);
    assert_eq!(ti.syscall_times.len(), 500);
    assert_eq!(ti.time, 0);
}

#[test]
fn yield_keeps_task_ready_and_frees_the_core() {
    let mut k = Kernel::new(0);
    let a = k.spawn_task(1);
    assert_eq!(k.run_tasks(), Some(a));
    assert_eq!(k.current_task(), Some(a));
    assert_eq!(k.sys_yield(), 0);
    assert_eq!(k.current_task(), None);
    assert_eq!(status(&k, a), TaskStatus::Ready);
}
