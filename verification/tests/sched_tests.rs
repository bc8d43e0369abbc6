use rtsched::sched::{
    ConfigurationError, Decision, Holder, RuntimeLockError, Scheduler, TaskState, MAX_RESOURCES,
    MAX_TASKS,
};

#[test]
fn register_assigns_sequential_handles() {
    let mut s = Scheduler::new();
    assert_eq!(s.register(3, 100), Ok(0));
    assert_eq!(s.register(2, 200), Ok(1));
    assert_eq!(s.tasks[0].priority, 3);
    assert_eq!(s.tasks[1].period, 200);
    assert_eq!(s.tasks[0].state, TaskState::Unscheduled);
}

#[test]
fn register_rejects_duplicate_priority() {
    let mut s = Scheduler::new();
    assert_eq!(s.register(3, 100), Ok(0));
    assert_eq!(s.register(3, 999), Err(ConfigurationError::DuplicatePriority));
    assert_eq!(s.tasks.len(), 1);
}

#[test]
fn register_rejects_full_table() {
    let mut s = Scheduler::new();
    for p in 0..MAX_TASKS {
        assert!(s.register(p as u8, 100).is_ok());
    }
    assert_eq!(s.register(200, 100), Err(ConfigurationError::TableFull));
}

#[test]
fn register_resource_rejects_full_table() {
    let mut s = Scheduler::new();
    for _ in 0..MAX_RESOURCES {
        assert!(s.register_resource(5).is_ok());
    }
    assert_eq!(s.register_resource(5), Err(ConfigurationError::TableFull));
}

#[test]
fn idle_runs_when_nothing_ready() {
    let mut s = Scheduler::new();
    let a = s.register(3, 1000).unwrap();
    s.start();
    s.schedule_at(a, 500);
    assert_eq!(s.poll(0), Decision::Idle);
    assert_eq!(s.poll(499), Decision::Idle);
}

#[test]
fn ready_task_preempts_idle_at_once() {
    let mut s = Scheduler::new();
    let a = s.register(3, 1000).unwrap();
    s.start();
    s.schedule_at(a, 500);
    assert_eq!(s.poll(500), Decision::Start(a));
    assert_eq!(s.tasks[a].state, TaskState::Running);
    assert_eq!(s.current_holder(), Holder::Job(a));
}

#[test]
fn two_periodic_tasks_fire_on_the_ideal_schedule() {
    // Task A: priority 3, period 8,000,000 ticks. Task B: priority 2,
    // period 80,000,000 ticks. The clock starts at tick 0.
    let mut s = Scheduler::new();
    let a = s.register(3, 8_000_000).unwrap();
    let b = s.register(2, 80_000_000).unwrap();
    s.start();
    s.schedule_at(a, 8_000_000);
    s.schedule_at(b, 80_000_000);

    // A's first firing comes exactly at 8,000,000.
    assert_eq!(s.poll(7_999_999), Decision::Idle);
    assert_eq!(s.poll(8_000_000), Decision::Start(a));
    // The firing itself runs late and long; the next deadline still
    // anchors to the previous deadline.
    assert_eq!(s.task_finished(), a);
    assert!(!s.reschedule_periodic(a, 8_000_123));
    assert_eq!(s.tasks[a].next_deadline, 16_000_000);

    // A's second firing comes exactly at 16,000,000; B is not ready.
    assert_eq!(s.poll(16_000_000), Decision::Start(a));
    assert_eq!(s.task_finished(), a);
    assert!(!s.reschedule_periodic(a, 16_000_200));

    // At 80,000,000 both are due; A outranks B, so B waits until A is
    // done and never runs while A is ready.
    for n in 2u32..9 {
        assert_eq!(s.poll(8_000_000 * (n + 1)), Decision::Start(a));
        assert_eq!(s.task_finished(), a);
        assert!(!s.reschedule_periodic(a, 8_000_000 * (n + 1) + 50));
    }
    assert_eq!(s.poll(80_000_000), Decision::Start(a));
    assert_eq!(s.task_finished(), a);
    assert!(!s.reschedule_periodic(a, 80_000_040));
    assert_eq!(s.poll(80_000_050), Decision::Start(b));
    assert_eq!(s.task_finished(), b);
    assert!(!s.reschedule_periodic(b, 80_000_090));
    assert_eq!(s.tasks[b].next_deadline, 160_000_000);
    assert_eq!(s.missed_deadlines, 0);
}

#[test]
fn overrun_fires_immediately_and_counts_once() {
    let mut s = Scheduler::new();
    let a = s.register(1, 100).unwrap();
    s.start();
    s.schedule_at(a, 1000);
    assert_eq!(s.poll(5000), Decision::Start(a));
    assert_eq!(s.task_finished(), a);
    // The next deadline, 1100, already lies in the past at tick 5000.
    assert!(s.reschedule_periodic(a, 5000));
    assert_eq!(s.missed_deadlines, 1);
    // The deadline arithmetic is unchanged by the overrun: it is the old
    // deadline plus the period, never "now" plus the period.
    assert_eq!(s.tasks[a].next_deadline, 1100);
    // The task is ready at once; no firing is skipped.
    assert_eq!(s.poll(5000), Decision::Start(a));
    assert_eq!(s.task_finished(), a);
    assert!(s.reschedule_periodic(a, 5000));
    assert_eq!(s.missed_deadlines, 2);
    assert_eq!(s.tasks[a].next_deadline, 1200);
}

#[test]
fn deadlines_do_not_drift_across_wraparound() {
    let mut s = Scheduler::new();
    let a = s.register(1, 0x20).unwrap();
    s.start();
    s.schedule_at(a, 0xFFFF_FFF0);
    assert_eq!(s.poll(0xFFFF_FFF0), Decision::Start(a));
    assert_eq!(s.task_finished(), a);
    assert!(!s.reschedule_periodic(a, 0xFFFF_FFF1));
    // 0xFFFF_FFF0 + 0x20 wraps to 0x10.
    assert_eq!(s.tasks[a].next_deadline, 0x10);
    assert_eq!(s.poll(0x10), Decision::Start(a));
}

#[test]
fn ceiling_blocks_higher_priority_until_release() {
    // Task L (priority 1) holds resource R (ceiling 5); task H (priority
    // 5) becomes ready mid-critical-section. H starts strictly after L
    // releases R; L's critical section is not extended by H's readiness.
    let mut s = Scheduler::new();
    let l = s.register(1, 1000).unwrap();
    let h = s.register(5, 1000).unwrap();
    let r = s.register_resource(5).unwrap();
    s.start();
    s.schedule_at(l, 0);
    assert_eq!(s.poll(0), Decision::Start(l));
    assert_eq!(s.acquire(r), Ok(()));
    assert_eq!(s.resources[r].owner, Some(Holder::Job(l)));

    // H becomes ready while L is inside its critical section.
    s.schedule_at(h, 10);
    assert_eq!(s.poll(10), Decision::Continue(l));
    assert_eq!(s.tasks[h].state, TaskState::Scheduled);

    // The moment L releases, H preempts it.
    assert_eq!(s.release(r), Ok(()));
    assert_eq!(s.resources[r].owner, None);
    assert_eq!(s.poll(10), Decision::Start(h));
    assert_eq!(s.tasks[l].state, TaskState::Preempted);

    // H completes; L resumes.
    assert_eq!(s.task_finished(), h);
    assert_eq!(s.tasks[l].state, TaskState::Running);
}

#[test]
fn higher_priority_above_ceiling_still_preempts() {
    let mut s = Scheduler::new();
    let l = s.register(1, 1000).unwrap();
    let h = s.register(6, 1000).unwrap();
    let r = s.register_resource(5).unwrap();
    s.start();
    s.schedule_at(l, 0);
    assert_eq!(s.poll(0), Decision::Start(l));
    assert_eq!(s.acquire(r), Ok(()));
    // Priority 6 exceeds the held ceiling of 5, so it cannot need R and
    // may preempt the critical section.
    s.schedule_at(h, 10);
    assert_eq!(s.poll(10), Decision::Start(h));
    assert_eq!(s.task_finished(), h);
    assert_eq!(s.release(r), Ok(()));
}

#[test]
fn nested_acquisition_tracks_depth() {
    let mut s = Scheduler::new();
    let l = s.register(2, 1000).unwrap();
    let r = s.register_resource(4).unwrap();
    s.start();
    s.schedule_at(l, 0);
    assert_eq!(s.poll(0), Decision::Start(l));
    assert_eq!(s.acquire(r), Ok(()));
    assert_eq!(s.acquire(r), Ok(()));
    assert_eq!(s.resources[r].lock_depth, 2);
    assert_eq!(s.resources[r].owner, Some(Holder::Job(l)));
    assert_eq!(s.release(r), Ok(()));
    assert_eq!(s.resources[r].lock_depth, 1);
    assert_eq!(s.resources[r].owner, Some(Holder::Job(l)));
    assert_eq!(s.release(r), Ok(()));
    assert_eq!(s.resources[r].lock_depth, 0);
    assert_eq!(s.resources[r].owner, None);
}

#[test]
fn nesting_beyond_supported_depth_is_a_defect() {
    let mut s = Scheduler::new();
    let l = s.register(2, 1000).unwrap();
    let r = s.register_resource(4).unwrap();
    s.start();
    s.schedule_at(l, 0);
    assert_eq!(s.poll(0), Decision::Start(l));
    for _ in 0..rtsched::sched::MAX_LOCK_DEPTH {
        assert_eq!(s.acquire(r), Ok(()));
    }
    assert_eq!(s.acquire(r), Err(RuntimeLockError::DepthExceeded));
    assert_eq!(s.resources[r].lock_depth, rtsched::sched::MAX_LOCK_DEPTH);
}

#[test]
fn lock_errors_are_reported() {
    let mut s = Scheduler::new();
    let t = s.register(5, 1000).unwrap();
    let r = s.register_resource(3).unwrap();
    s.start();
    // Nothing runs and nothing is held: releasing is a defect.
    assert_eq!(s.release(r), Err(RuntimeLockError::NotHeld));
    // An unregistered handle is a defect.
    assert_eq!(s.acquire(99), Err(RuntimeLockError::UnregisteredResource));
    assert_eq!(s.release(99), Err(RuntimeLockError::UnregisteredResource));
    // A task whose priority exceeds the ceiling was never registered for
    // this resource.
    s.schedule_at(t, 0);
    assert_eq!(s.poll(0), Decision::Start(t));
    assert_eq!(s.acquire(r), Err(RuntimeLockError::CeilingBelowPriority));
}

#[test]
fn idle_task_locks_like_any_other() {
    let mut s = Scheduler::new();
    let a = s.register(3, 1000).unwrap();
    let b = s.register(7, 1000).unwrap();
    let r = s.register_resource(5).unwrap();
    s.start();
    // The idle loop takes the lock while nothing is ready.
    assert_eq!(s.poll(0), Decision::Idle);
    assert_eq!(s.acquire(r), Ok(()));
    assert_eq!(s.resources[r].owner, Some(Holder::IdleTask));
    // A task at or below the ceiling must wait for the idle loop's
    // critical section.
    s.schedule_at(a, 5);
    assert_eq!(s.poll(5), Decision::Idle);
    // One above the ceiling preempts it.
    s.schedule_at(b, 6);
    assert_eq!(s.poll(6), Decision::Start(b));
    assert_eq!(s.task_finished(), b);
    // Once the idle loop releases, the waiting task starts immediately.
    assert_eq!(s.release(r), Ok(()));
    assert_eq!(s.poll(7), Decision::Start(a));
}

#[test]
fn preemption_stacks_and_resumes_in_order() {
    let mut s = Scheduler::new();
    let low = s.register(1, 1000).unwrap();
    let mid = s.register(2, 1000).unwrap();
    let high = s.register(3, 1000).unwrap();
    s.start();
    s.schedule_at(low, 0);
    assert_eq!(s.poll(0), Decision::Start(low));
    s.schedule_at(mid, 1);
    assert_eq!(s.poll(1), Decision::Start(mid));
    s.schedule_at(high, 2);
    assert_eq!(s.poll(2), Decision::Start(high));
    assert_eq!(s.tasks[low].state, TaskState::Preempted);
    assert_eq!(s.tasks[mid].state, TaskState::Preempted);
    assert_eq!(s.task_finished(), high);
    assert_eq!(s.tasks[mid].state, TaskState::Running);
    assert_eq!(s.poll(3), Decision::Continue(mid));
    assert_eq!(s.task_finished(), mid);
    assert_eq!(s.task_finished(), low);
    assert_eq!(s.poll(4), Decision::Idle);
}

#[test]
fn lower_priority_ready_does_not_preempt() {
    let mut s = Scheduler::new();
    let hi = s.register(9, 1000).unwrap();
    let lo = s.register(4, 1000).unwrap();
    s.start();
    s.schedule_at(hi, 0);
    assert_eq!(s.poll(0), Decision::Start(hi));
    s.schedule_at(lo, 1);
    assert_eq!(s.poll(1), Decision::Continue(hi));
    assert_eq!(s.tasks[lo].state, TaskState::Scheduled);
    assert_eq!(s.task_finished(), hi);
    assert_eq!(s.poll(2), Decision::Start(lo));
}
