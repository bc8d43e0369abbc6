//! The scheduling core: a static table of periodic task descriptors, a
//! preemptive fixed-priority dispatcher, and a resource lock manager that
//! implements the immediate priority-ceiling protocol.
//!
//! One physical thread of control exists; concurrency means interleaving by
//! preemption. The running and preempted tasks form a stack, innermost
//! entry running; the idle task stands in when the stack is empty. A task
//! holding a resource behaves at the resource's ceiling priority, so a
//! newly ready task starts only when its priority exceeds both the running
//! task's own priority and every ceiling that task holds. Under that rule
//! a permitted lock request never finds its resource held by anyone else,
//! which `lemma_available_when_permitted` proves from the well-formedness
//! invariant: there is no waiting and hence no deadlock.

use vstd::prelude::*;

use crate::clock::{deadline_reached, spec_deadline_reached, spec_overrun, spec_tick_add, tick_add};

verus! {

/// Greatest number of periodic tasks the table can hold.
pub const MAX_TASKS: usize = 64;

/// Greatest number of shared resources the lock manager can hold.
pub const MAX_RESOURCES: usize = 64;

/// Deepest supported nested acquisition of one resource by its holder.
pub const MAX_LOCK_DEPTH: u32 = 255;

/// Execution state of one task instance. Every task starts `Unscheduled`;
/// periodic tasks cycle through the other states indefinitely.
#[derive(Clone, Copy, PartialEq, Eq, Structural, Debug)]
pub enum TaskState {
    /// Not enqueued: never scheduled yet, or between a firing and its
    /// rescheduling.
    Unscheduled,
    /// Enqueued to fire at its deadline, or past the deadline and awaiting
    /// execution.
    Scheduled,
    /// Executing now; at most one task is running at any instant.
    Running,
    /// Suspended by a higher-priority task; resumes in stack order.
    Preempted,
}

/// Who executes, and so who can hold a resource: a registered task, or the
/// idle loop that runs when the stack is empty.
#[derive(Clone, Copy, PartialEq, Eq, Structural, Debug)]
pub enum Holder {
    IdleTask,
    Job(usize),
}

/// What the dispatcher decided at a scheduling point.
#[derive(Clone, Copy, PartialEq, Eq, Structural, Debug)]
pub enum Decision {
    /// The task just preempted whatever ran before; run its handler now.
    Start(usize),
    /// The task already running stays the most urgent; let it continue.
    Continue(usize),
    /// Nothing is ready: run the idle loop.
    Idle,
}

/// Initialization failure. Fatal: the dispatcher must not start after one.
#[derive(Clone, Copy, PartialEq, Eq, Structural, Debug)]
pub enum ConfigurationError {
    /// Another task already took this priority tier.
    DuplicatePriority,
    /// The task or resource table is exhausted.
    TableFull,
}

/// Locking failure at run time. Fatal: each one indicates a static
/// configuration or programming defect, not a transient condition.
#[derive(Clone, Copy, PartialEq, Eq, Structural, Debug)]
pub enum RuntimeLockError {
    /// The resource handle was never registered.
    UnregisteredResource,
    /// The requesting task's priority exceeds the resource's ceiling, so
    /// the resource was never registered for that task's tier.
    CeilingBelowPriority,
    /// Re-entrant acquisition beyond the supported nesting depth.
    DepthExceeded,
    /// Release of a resource the caller does not hold.
    NotHeld,
}

/// A periodic task: unique priority (larger is more urgent), period in
/// ticks, the deadline of its next (or current) firing, and its state.
#[derive(Clone, Copy, Debug)]
pub struct TaskDescriptor {
    pub priority: u8,
    pub period: u32,
    pub next_deadline: u32,
    pub state: TaskState,
}

/// A shared resource under the priority-ceiling protocol: the ceiling is
/// the highest priority of any task permitted to lock it, fixed at
/// registration; the owner and depth track the current nested acquisition.
#[derive(Clone, Copy, Debug)]
pub struct ResourceDescriptor {
    pub ceiling: u8,
    pub owner: Option<Holder>,
    pub lock_depth: u32,
}

/// The whole scheduling state: the task table, the resource table, the
/// stack of running and preempted tasks (innermost entry running), the
/// missed-deadline diagnostic counter, and whether the run phase started.
pub struct Scheduler {
    pub tasks: Vec<TaskDescriptor>,
    pub resources: Vec<ResourceDescriptor>,
    pub stack: Vec<usize>,
    pub missed_deadlines: u64,
    pub started: bool,
}

impl Scheduler {
    pub open spec fn valid_task(self, t: int) -> bool {
        0 <= t < self.tasks.len()
    }

    pub open spec fn valid_resource(self, r: int) -> bool {
        0 <= r < self.resources.len()
    }

    /// The task occupies a position on the running/preempted stack.
    pub open spec fn task_on_stack(self, t: int) -> bool {
        exists|i: int| 0 <= i < self.stack.len() && self.stack@[i] as int == t
    }

    /// Whoever executes at this instant: the innermost stacked task, or
    /// the idle loop when the stack is empty.
    pub open spec fn executor(self) -> Holder {
        if self.stack.len() == 0 {
            Holder::IdleTask
        } else {
            Holder::Job(self.stack@.last())
        }
    }

    /// `h` currently holds resource `r`.
    pub open spec fn owns(self, h: Holder, r: int) -> bool {
        self.valid_resource(r) && self.resources@[r].owner == Some(h)
    }

    /// Priority `p` exceeds the executor's effective priority: its own
    /// priority (none for the idle loop) raised by the ceiling of every
    /// resource it holds. This is the preemption test.
    pub open spec fn exceeds_effective(self, p: u8) -> bool {
        &&& match self.executor() {
            Holder::Job(t) => p > self.tasks@[t as int].priority,
            Holder::IdleTask => true,
        }
        &&& forall|r: int| self.owns(self.executor(), r) ==> p > self.resources@[r].ceiling
    }

    /// Task `t` is ready at instant `now`: enqueued and at or past its
    /// deadline.
    pub open spec fn ready_at(self, t: int, now: u32) -> bool {
        &&& self.valid_task(t)
        &&& self.tasks@[t].state == TaskState::Scheduled
        &&& spec_deadline_reached(now, self.tasks@[t].next_deadline)
    }

    pub open spec fn active_state(s: TaskState) -> bool {
        s == TaskState::Running || s == TaskState::Preempted
    }

    /// Stack well-formedness: entries are valid, distinct task ids whose
    /// priorities increase strictly toward the innermost end; the
    /// innermost is running, the rest are preempted, and exactly the
    /// stacked tasks are in either of those states.
    pub open spec fn stack_wf(self) -> bool {
        &&& forall|i: int| 0 <= i < self.stack.len() ==> (self.stack@[i] as int) < self.tasks.len()
        &&& forall|i: int, j: int| 0 <= i < j < self.stack.len() ==> self.stack@[i] != self.stack@[j]
        &&& forall|i: int, j: int| 0 <= i < j < self.stack.len()
            ==> self.tasks@[self.stack@[i] as int].priority < self.tasks@[self.stack@[j] as int].priority
        &&& (self.stack.len() > 0 ==> self.tasks@[self.stack@.last() as int].state == TaskState::Running)
        &&& forall|i: int| 0 <= i < self.stack.len() - 1
            ==> self.tasks@[self.stack@[i] as int].state == TaskState::Preempted
        &&& forall|t: int| self.valid_task(t)
            ==> (Self::active_state(self.tasks@[t].state) <==> self.task_on_stack(t))
    }

    /// No two tasks share a priority tier, which keeps "highest ready
    /// task" unambiguous.
    pub open spec fn priorities_unique(self) -> bool {
        forall|i: int, j: int|
            0 <= i < self.tasks.len() && 0 <= j < self.tasks.len() && i != j
                ==> self.tasks@[i].priority != self.tasks@[j].priority
    }

    /// A resource is locked exactly while it has an owner, and a task
    /// owner occupies a stack position.
    pub open spec fn resource_wf(self, r: int) -> bool {
        &&& self.resources@[r].lock_depth <= MAX_LOCK_DEPTH
        &&& (self.resources@[r].lock_depth > 0 <==> self.resources@[r].owner is Some)
        &&& (self.resources@[r].owner matches Some(Holder::Job(t))
            ==> (t as int) < self.tasks.len() && self.task_on_stack(t as int))
    }

    /// The ceiling discipline: every stacked task that outranks the holder
    /// of a locked resource also outranks the resource's ceiling. Such a
    /// task preempted its way above the holder, which it could only do by
    /// exceeding the holder's effective priority, ceiling included.
    pub open spec fn ceiling_respected(self, r: int) -> bool {
        match self.resources@[r].owner {
            Option::None => true,
            Option::Some(Holder::IdleTask) => forall|j: int|
                0 <= j < self.stack.len()
                    ==> self.tasks@[self.stack@[j] as int].priority > self.resources@[r].ceiling,
            Option::Some(Holder::Job(t)) => forall|j: int|
                0 <= j < self.stack.len()
                    && self.tasks@[self.stack@[j] as int].priority > self.tasks@[t as int].priority
                    ==> self.tasks@[self.stack@[j] as int].priority > self.resources@[r].ceiling,
        }
    }

    /// The well-formedness invariant every operation preserves.
    pub open spec fn wf(self) -> bool {
        &&& self.tasks.len() <= MAX_TASKS
        &&& self.resources.len() <= MAX_RESOURCES
        &&& self.stack_wf()
        &&& self.priorities_unique()
        &&& forall|r: int| self.valid_resource(r) ==> self.resource_wf(r)
        &&& forall|r: int| self.valid_resource(r) ==> self.ceiling_respected(r)
    }

    /// Stack membership only depends on the stack itself.
    proof fn lemma_on_stack_equiv(pre: Scheduler, post: Scheduler, t: int)
        requires
            post.stack@ == pre.stack@,
        ensures
            post.task_on_stack(t) == pre.task_on_stack(t),
    {
        if pre.task_on_stack(t) {
            let i = choose|i: int| 0 <= i < pre.stack.len() && pre.stack@[i] as int == t;
            assert(post.stack@[i] as int == t);
            assert(post.task_on_stack(t));
        }
        if post.task_on_stack(t) {
            let i = choose|i: int| 0 <= i < post.stack.len() && post.stack@[i] as int == t;
            assert(pre.stack@[i] as int == t);
            assert(pre.task_on_stack(t));
        }
    }

    /// Well-formedness only depends on the tables and the stack.
    proof fn lemma_same_views_wf(pre: Scheduler, post: Scheduler)
        requires
            pre.wf(),
            post.tasks@ == pre.tasks@,
            post.resources@ == pre.resources@,
            post.stack@ == pre.stack@,
        ensures
            post.wf(),
    {
        assert forall|t: int| post.valid_task(t) implies (Self::active_state(
            post.tasks@[t].state,
        ) <==> post.task_on_stack(t)) by {
            Self::lemma_on_stack_equiv(pre, post, t);
        }
        assert forall|r: int| post.valid_resource(r) implies post.resource_wf(r) by {
            assert(pre.resource_wf(r));
            match post.resources@[r].owner {
                Option::Some(Holder::Job(h)) => {
                    Self::lemma_on_stack_equiv(pre, post, h as int);
                },
                _ => {},
            }
        }
        assert forall|r: int| post.valid_resource(r) implies post.ceiling_respected(r) by {
            assert(pre.ceiling_respected(r));
        }
    }

    /// An empty scheduler, in its initialization phase.
    pub fn new() -> (s: Scheduler)
        ensures
            s.wf(),
            s.tasks@.len() == 0,
            s.resources@.len() == 0,
            s.stack@.len() == 0,
            s.missed_deadlines == 0,
            !s.started,
    {
        Scheduler {
            tasks: Vec::new(),
            resources: Vec::new(),
            stack: Vec::new(),
            missed_deadlines: 0,
            started: false,
        }
    }

    /// Register a periodic task during initialization. Fails when the
    /// priority tier is already taken or the table is full; on success the
    /// new task is unscheduled, with its deadline left at zero until its
    /// first `schedule_at`.
    pub fn register(&mut self, priority: u8, period: u32) -> (r: Result<
        usize,
        ConfigurationError,
    >)
        requires
            old(self).wf(),
            !old(self).started,
        ensures
            final(self).wf(),
            final(self).resources@ == old(self).resources@,
            final(self).stack@ == old(self).stack@,
            final(self).missed_deadlines == old(self).missed_deadlines,
            final(self).started == old(self).started,
            match r {
                Ok(h) => {
                    &&& old(self).tasks.len() < MAX_TASKS
                    &&& forall|i: int|
                        0 <= i < old(self).tasks.len() ==> old(self).tasks@[i].priority != priority
                    &&& h == old(self).tasks.len()
                    &&& final(self).tasks@ == old(self).tasks@.push(
                        (TaskDescriptor {
                            priority,
                            period,
                            next_deadline: 0,
                            state: TaskState::Unscheduled,
                        }),
                    )
                },
                Err(ConfigurationError::TableFull) => {
                    &&& old(self).tasks.len() == MAX_TASKS
                    &&& final(self).tasks@ == old(self).tasks@
                },
                Err(ConfigurationError::DuplicatePriority) => {
                    &&& old(self).tasks.len() < MAX_TASKS
                    &&& exists|i: int|
                        0 <= i < old(self).tasks.len() && old(self).tasks@[i].priority == priority
                    &&& final(self).tasks@ == old(self).tasks@
                },
            },
    {
        if self.tasks.len() == MAX_TASKS {
            return Err(ConfigurationError::TableFull);
        }
        let n = self.tasks.len();
        let mut i: usize = 0;
        while i < n
            invariant
                n == self.tasks.len(),
                i <= n,
                forall|j: int| 0 <= j < i ==> self.tasks@[j].priority != priority,
            decreases n - i,
        {
            if self.tasks[i].priority == priority {
                return Err(ConfigurationError::DuplicatePriority);
            }
            i = i + 1;
        }
        let h = self.tasks.len();
        self.tasks.push(
            TaskDescriptor { priority, period, next_deadline: 0, state: TaskState::Unscheduled },
        );
        proof {
            assert forall|t: int| self.valid_task(t) implies (Self::active_state(
                self.tasks@[t].state,
            ) <==> self.task_on_stack(t)) by {
                Self::lemma_on_stack_equiv(*old(self), *self, t);
                if t == h as int {
                    assert(!old(self).task_on_stack(t));
                }
            }
            assert forall|r: int| self.valid_resource(r) implies self.resource_wf(r)
                && self.ceiling_respected(r) by {
                assert(old(self).resource_wf(r));
                assert(old(self).ceiling_respected(r));
            }
        }
        Ok(h)
    }

    /// Register a shared resource during initialization, with its priority
    /// ceiling: the highest priority of any task that may ever lock it.
    /// Fails only when the resource table is full.
    pub fn register_resource(&mut self, ceiling: u8) -> (r: Result<usize, ConfigurationError>)
        requires
            old(self).wf(),
            !old(self).started,
        ensures
            final(self).wf(),
            final(self).tasks@ == old(self).tasks@,
            final(self).stack@ == old(self).stack@,
            final(self).missed_deadlines == old(self).missed_deadlines,
            final(self).started == old(self).started,
            match r {
                Ok(h) => {
                    &&& old(self).resources.len() < MAX_RESOURCES
                    &&& h == old(self).resources.len()
                    &&& final(self).resources@ == old(self).resources@.push(
                        (ResourceDescriptor { ceiling, owner: None, lock_depth: 0 }),
                    )
                },
                Err(ConfigurationError::TableFull) => {
                    &&& old(self).resources.len() == MAX_RESOURCES
                    &&& final(self).resources@ == old(self).resources@
                },
                Err(ConfigurationError::DuplicatePriority) => false,
            },
    {
        if self.resources.len() == MAX_RESOURCES {
            return Err(ConfigurationError::TableFull);
        }
        let h = self.resources.len();
        self.resources.push(ResourceDescriptor { ceiling, owner: None, lock_depth: 0 });
        proof {
            assert forall|t: int| self.valid_task(t) implies (Self::active_state(
                self.tasks@[t].state,
            ) <==> self.task_on_stack(t)) by {
                Self::lemma_on_stack_equiv(*old(self), *self, t);
            }
            assert forall|r: int| self.valid_resource(r) implies self.resource_wf(r)
                && self.ceiling_respected(r) by {
                if r < h as int {
                    assert(self.resources@[r] == old(self).resources@[r]);
                    assert(old(self).resource_wf(r));
                    assert(old(self).ceiling_respected(r));
                    match self.resources@[r].owner {
                        Option::Some(Holder::Job(o)) => {
                            Self::lemma_on_stack_equiv(*old(self), *self, o as int);
                        },
                        _ => {},
                    }
                }
            }
        }
        Ok(h)
    }

    /// End the initialization phase: no registration is accepted past this
    /// point. The host's run-forever loop then polls the dispatcher.
    pub fn start(&mut self)
        requires
            old(self).wf(),
            !old(self).started,
        ensures
            final(self).wf(),
            final(self).started,
            final(self).tasks@ == old(self).tasks@,
            final(self).resources@ == old(self).resources@,
            final(self).stack@ == old(self).stack@,
            final(self).missed_deadlines == old(self).missed_deadlines,
    {
        self.started = true;
        proof {
            Self::lemma_same_views_wf(*old(self), *self);
        }
    }

    /// Enqueue a task to become ready at `deadline`. The task must not be
    /// executing: it is either still unscheduled or being re-enqueued.
    pub fn schedule_at(&mut self, t: usize, deadline: u32)
        requires
            old(self).wf(),
            (t as int) < old(self).tasks.len(),
            old(self).tasks@[t as int].state == TaskState::Unscheduled || old(self).tasks@[t
                as int].state == TaskState::Scheduled,
        ensures
            final(self).wf(),
            final(self).tasks@ == old(self).tasks@.update(
                t as int,
                (TaskDescriptor {
                    next_deadline: deadline,
                    state: TaskState::Scheduled,
                    ..old(self).tasks@[t as int]
                }),
            ),
            final(self).resources@ == old(self).resources@,
            final(self).stack@ == old(self).stack@,
            final(self).missed_deadlines == old(self).missed_deadlines,
            final(self).started == old(self).started,
    {
        proof {
            assert(!old(self).task_on_stack(t as int));
        }
        self.tasks[t].next_deadline = deadline;
        self.tasks[t].state = TaskState::Scheduled;
        proof {
            self.lemma_nonexec_update_preserves_wf(*old(self), t);
        }
    }

    /// After a periodic task finishes a firing, anchor its next deadline
    /// to the ideal schedule: exactly one period after the deadline of the
    /// firing that just completed, never one period after "now". When that
    /// instant already lies strictly in the past the task is ready at
    /// once — no firing is skipped — and the missed-deadline counter
    /// increments by one. Returns whether that overrun happened.
    pub fn reschedule_periodic(&mut self, t: usize, now: u32) -> (overrun: bool)
        requires
            old(self).wf(),
            (t as int) < old(self).tasks.len(),
            old(self).tasks@[t as int].state == TaskState::Unscheduled,
            old(self).missed_deadlines < u64::MAX,
        ensures
            final(self).wf(),
            final(self).tasks@ == old(self).tasks@.update(
                t as int,
                (TaskDescriptor {
                    next_deadline: spec_tick_add(
                        old(self).tasks@[t as int].next_deadline,
                        old(self).tasks@[t as int].period,
                    ),
                    state: TaskState::Scheduled,
                    ..old(self).tasks@[t as int]
                }),
            ),
            overrun == spec_overrun(
                now,
                spec_tick_add(
                    old(self).tasks@[t as int].next_deadline,
                    old(self).tasks@[t as int].period,
                ),
            ),
            final(self).missed_deadlines == old(self).missed_deadlines + (if overrun {
                1int
            } else {
                0int
            }),
            final(self).resources@ == old(self).resources@,
            final(self).stack@ == old(self).stack@,
            final(self).started == old(self).started,
    {
        proof {
            assert(!old(self).task_on_stack(t as int));
        }
        let nd = tick_add(self.tasks[t].next_deadline, self.tasks[t].period);
        self.tasks[t].next_deadline = nd;
        self.tasks[t].state = TaskState::Scheduled;
        let overrun = deadline_reached(now, nd) && nd != now;
        if overrun {
            self.missed_deadlines = self.missed_deadlines + 1;
        }
        proof {
            self.lemma_nonexec_update_preserves_wf(*old(self), t);
        }
        overrun
    }

    /// Updating the deadline or state of a task that is not on the stack,
    /// while keeping its priority and keeping it out of the running and
    /// preempted states, preserves well-formedness.
    proof fn lemma_nonexec_update_preserves_wf(self, pre: Scheduler, t: usize)
        requires
            pre.wf(),
            pre.valid_task(t as int),
            !pre.task_on_stack(t as int),
            self.resources@ == pre.resources@,
            self.stack@ == pre.stack@,
            self.tasks@.len() == pre.tasks@.len(),
            forall|u: int| #![trigger self.tasks@[u]]
                pre.valid_task(u) && u != t as int ==> self.tasks@[u] == pre.tasks@[u],
            self.tasks@[t as int].priority == pre.tasks@[t as int].priority,
            !Self::active_state(self.tasks@[t as int].state),
        ensures
            self.wf(),
    {
        assert forall|i: int| 0 <= i < self.stack.len() implies self.stack@[i] as int
            != t as int by {
            if self.stack@[i] as int == t as int {
                assert(pre.task_on_stack(t as int));
            }
        }
        assert forall|t2: int| self.valid_task(t2) implies (Self::active_state(
            self.tasks@[t2].state,
        ) <==> self.task_on_stack(t2)) by {
            Self::lemma_on_stack_equiv(pre, self, t2);
            assert(pre.valid_task(t2));
            assert(Self::active_state(pre.tasks@[t2].state) <==> pre.task_on_stack(t2));
            if t2 != t as int {
                assert(self.tasks@[t2] == pre.tasks@[t2]);
            } else {
                assert(!pre.task_on_stack(t2));
            }
        }
        assert forall|r: int| self.valid_resource(r) implies self.resource_wf(r)
            && self.ceiling_respected(r) by {
            assert(pre.resource_wf(r));
            assert(pre.ceiling_respected(r));
            assert(self.resources@[r] == pre.resources@[r]);
            match self.resources@[r].owner {
                Option::Some(Holder::Job(h)) => {
                    let i = choose|i: int|
                        0 <= i < pre.stack.len() && pre.stack@[i] as int == h as int;
                    assert(self.stack@[i] as int == h as int);
                    assert(self.task_on_stack(h as int));
                    assert(h as int != t as int);
                    assert(self.tasks@[h as int] == pre.tasks@[h as int]);
                    assert forall|j: int| 0 <= j < self.stack.len() implies self.tasks@[self.stack@[j] as int]
                        == pre.tasks@[pre.stack@[j] as int] by {
                        assert(pre.stack@[j] as int != t as int);
                    }
                },
                Option::Some(Holder::IdleTask) => {
                    assert forall|j: int| 0 <= j < self.stack.len() implies self.tasks@[self.stack@[j] as int]
                        == pre.tasks@[pre.stack@[j] as int] by {
                        assert(pre.stack@[j] as int != t as int);
                    }
                },
                Option::None => {},
            }
        }
    }

    /// Whoever executes at this instant.
    pub fn current_holder(&self) -> (h: Holder)
        ensures
            h == self.executor(),
    {
        if self.stack.len() == 0 {
            Holder::IdleTask
        } else {
            Holder::Job(self.stack[self.stack.len() - 1])
        }
    }

    /// Whether priority `p` exceeds the executor's effective priority.
    #[verifier::loop_isolation(false)]
    fn priority_preempts(&self, p: u8) -> (b: bool)
        requires
            self.wf(),
        ensures
            b == self.exceeds_effective(p),
    {
        let e: Holder;
        if self.stack.len() > 0 {
            let top = self.stack[self.stack.len() - 1];
            if p <= self.tasks[top].priority {
                return false;
            }
            e = Holder::Job(top);
        } else {
            e = Holder::IdleTask;
        }
        let mut i: usize = 0;
        while i < self.resources.len()
            invariant
                e == self.executor(),
                forall|r: int| 0 <= r < i && self.owns(e, r) ==> p > self.resources@[r].ceiling,
            decreases self.resources.len() - i,
        {
            match self.resources[i].owner {
                Option::Some(h) => {
                    if h == e && p <= self.resources[i].ceiling {
                        proof {
                            assert(self.owns(self.executor(), i as int));
                        }
                        return false;
                    }
                },
                Option::None => {},
            }
            i = i + 1;
        }
        true
    }

    /// One scheduling re-evaluation at instant `now`: if the readiest task
    /// outranks the executor's effective priority it preempts — the
    /// running task, if any, is pushed as preempted and the new task
    /// starts; otherwise the running task continues, or the idle loop runs
    /// when the stack is empty.
    #[verifier::loop_isolation(false)]
    pub fn poll(&mut self, now: u32) -> (d: Decision)
        requires
            old(self).wf(),
        ensures
            final(self).wf(),
            final(self).missed_deadlines == old(self).missed_deadlines,
            final(self).started == old(self).started,
            final(self).resources@ == old(self).resources@,
            match d {
                Decision::Start(t) => {
                    &&& old(self).ready_at(t as int, now)
                    &&& forall|u: int|
                        old(self).ready_at(u, now) ==> old(self).tasks@[u].priority <= old(
                            self,
                        ).tasks@[t as int].priority
                    &&& old(self).exceeds_effective(old(self).tasks@[t as int].priority)
                    &&& final(self).stack@ == old(self).stack@.push(t)
                    &&& final(self).tasks@[t as int] == (TaskDescriptor {
                        state: TaskState::Running,
                        ..old(self).tasks@[t as int]
                    })
                    &&& (old(self).stack.len() > 0 ==> final(self).tasks@[old(self).stack@.last() as int]
                        == (TaskDescriptor {
                        state: TaskState::Preempted,
                        ..old(self).tasks@[old(self).stack@.last() as int]
                    }))
                    &&& forall|u: int|
                        old(self).valid_task(u) && u != t as int && (old(self).stack.len() == 0
                            || u != old(self).stack@.last() as int) ==> final(self).tasks@[u] == old(
                            self,
                        ).tasks@[u]
                    &&& final(self).tasks@.len() == old(self).tasks@.len()
                },
                Decision::Continue(t) => {
                    &&& final(self).tasks@ == old(self).tasks@
                    &&& final(self).stack@ == old(self).stack@
                    &&& final(self).stack.len() > 0
                    &&& t == final(self).stack@.last()
                    &&& forall|u: int|
                        old(self).ready_at(u, now) ==> !old(self).exceeds_effective(
                            old(self).tasks@[u].priority,
                        )
                },
                Decision::Idle => {
                    &&& final(self).tasks@ == old(self).tasks@
                    &&& final(self).stack@ == old(self).stack@
                    &&& final(self).stack.len() == 0
                    &&& forall|u: int|
                        old(self).ready_at(u, now) ==> !old(self).exceeds_effective(
                            old(self).tasks@[u].priority,
                        )
                },
            },
    {
        let n = self.tasks.len();
        let mut best: usize = 0;
        let mut found: bool = false;
        let mut i: usize = 0;
        while i < n
            invariant
                i <= n,
                found ==> (best as int) < i && self.ready_at(best as int, now),
                forall|u: int|
                    0 <= u < i && self.ready_at(u, now) ==> found && self.tasks@[u].priority
                        <= self.tasks@[best as int].priority,
            decreases n - i,
        {
            let td = self.tasks[i];
            if td.state == TaskState::Scheduled && deadline_reached(now, td.next_deadline) {
                if !found || self.tasks[best].priority < td.priority {
                    best = i;
                    found = true;
                }
            }
            i = i + 1;
        }
        if found {
            let p = self.tasks[best].priority;
            if self.priority_preempts(p) {
                let ghost pre = *self;
                if self.stack.len() > 0 {
                    let top = self.stack[self.stack.len() - 1];
                    self.tasks[top].state = TaskState::Preempted;
                }
                self.tasks[best].state = TaskState::Running;
                self.stack.push(best);
                proof {
                    Self::lemma_preempt_preserves_wf(pre, *self, best, now);
                }
                return Decision::Start(best);
            }
            proof {
                assert forall|u: int| self.ready_at(u, now) implies !self.exceeds_effective(
                    self.tasks@[u].priority,
                ) by {
                    if self.exceeds_effective(self.tasks@[u].priority) {
                        Self::lemma_exceeds_monotone(
                            *self,
                            self.tasks@[u].priority,
                            self.tasks@[best as int].priority,
                        );
                    }
                }
            }
        }
        if self.stack.len() > 0 {
            Decision::Continue(self.stack[self.stack.len() - 1])
        } else {
            Decision::Idle
        }
    }

    /// A task completed its firing: pop it off the stack. It must hold no
    /// resource any more — scoped acquisition releases every lock on every
    /// exit path of a task body. The task below it, if any, resumes
    /// running; otherwise the idle loop takes over. Returns the finished
    /// task's id, which `reschedule_periodic` then re-enqueues.
    pub fn task_finished(&mut self) -> (t: usize)
        requires
            old(self).wf(),
            old(self).stack.len() > 0,
            forall|r: int| !old(self).owns(Holder::Job(old(self).stack@.last()), r),
        ensures
            final(self).wf(),
            t == old(self).stack@.last(),
            final(self).stack@ == old(self).stack@.drop_last(),
            final(self).tasks@[t as int] == (TaskDescriptor {
                state: TaskState::Unscheduled,
                ..old(self).tasks@[t as int]
            }),
            final(self).stack.len() > 0 ==> final(self).tasks@[final(self).stack@.last() as int]
                == (TaskDescriptor {
                state: TaskState::Running,
                ..old(self).tasks@[final(self).stack@.last() as int]
            }),
            forall|u: int| #![trigger final(self).tasks@[u]]
                old(self).valid_task(u) && u != t as int && (final(self).stack.len() == 0 || u
                    != final(self).stack@.last() as int) ==> final(self).tasks@[u] == old(
                    self,
                ).tasks@[u],
            final(self).tasks@.len() == old(self).tasks@.len(),
            final(self).resources@ == old(self).resources@,
            final(self).missed_deadlines == old(self).missed_deadlines,
            final(self).started == old(self).started,
    {
        let ghost pre = *old(self);
        let popped = self.stack.pop();
        let t: usize = match popped {
            Option::Some(x) => x,
            Option::None => 0,
        };
        self.tasks[t].state = TaskState::Unscheduled;
        if self.stack.len() > 0 {
            let newtop = self.stack[self.stack.len() - 1];
            self.tasks[newtop].state = TaskState::Running;
        }
        proof {
            Self::lemma_pop_preserves_wf(pre, *self, t);
        }
        t
    }

    /// Popping a finished, lock-free task preserves well-formedness.
    proof fn lemma_pop_preserves_wf(pre: Scheduler, post: Scheduler, t: usize)
        requires
            pre.wf(),
            pre.stack.len() > 0,
            t == pre.stack@.last(),
            forall|r: int| !pre.owns(Holder::Job(t), r),
            post.stack@ == pre.stack@.drop_last(),
            post.resources@ == pre.resources@,
            post.tasks@.len() == pre.tasks@.len(),
            post.tasks@[t as int] == (TaskDescriptor {
                state: TaskState::Unscheduled,
                ..pre.tasks@[t as int]
            }),
            post.stack.len() > 0 ==> post.tasks@[post.stack@.last() as int] == (TaskDescriptor {
                state: TaskState::Running,
                ..pre.tasks@[post.stack@.last() as int]
            }),
            forall|u: int| #![trigger post.tasks@[u]]
                pre.valid_task(u) && u != t as int && (post.stack.len() == 0 || u
                    != post.stack@.last() as int) ==> post.tasks@[u] == pre.tasks@[u],
        ensures
            post.wf(),
    {
        let last = pre.stack.len() - 1;
        assert(post.stack.len() == last);
        // The popped task stood nowhere else on the stack.
        assert forall|i: int| 0 <= i < last implies pre.stack@[i] as int != t as int by {
            assert(pre.stack@[i] != pre.stack@[last]);
        }
        // Priorities are unchanged everywhere.
        assert forall|u: int| post.valid_task(u) implies post.tasks@[u].priority
            == pre.tasks@[u].priority by {
            if u != t as int && (post.stack.len() == 0 || u != post.stack@.last() as int) {
                assert(post.tasks@[u] == pre.tasks@[u]);
            }
        }
        // States match the shortened stack.
        assert forall|t2: int| post.valid_task(t2) implies (Self::active_state(
            post.tasks@[t2].state,
        ) <==> post.task_on_stack(t2)) by {
            if t2 == t as int {
                if post.task_on_stack(t2) {
                    let i = choose|i: int|
                        0 <= i < post.stack.len() && post.stack@[i] as int == t2;
                    assert(pre.stack@[i] as int == t2);
                }
            } else {
                assert(pre.valid_task(t2));
                assert(Self::active_state(pre.tasks@[t2].state) <==> pre.task_on_stack(t2));
                if Self::active_state(post.tasks@[t2].state) {
                    assert(Self::active_state(pre.tasks@[t2].state));
                    let i = choose|i: int|
                        0 <= i < pre.stack.len() && pre.stack@[i] as int == t2;
                    assert(pre.stack@[last] as int == t as int);
                    assert(i != last);
                    assert(post.stack@[i] as int == t2);
                    assert(post.task_on_stack(t2));
                }
                if post.task_on_stack(t2) {
                    let i = choose|i: int|
                        0 <= i < post.stack.len() && post.stack@[i] as int == t2;
                    assert(pre.stack@[i] as int == t2);
                    assert(pre.task_on_stack(t2));
                }
            }
        }
        // Owners keep their stack positions.
        assert forall|r: int| post.valid_resource(r) implies post.resource_wf(r) by {
            assert(pre.resource_wf(r));
            match post.resources@[r].owner {
                Option::Some(Holder::Job(h)) => {
                    assert(!pre.owns(Holder::Job(t), r));
                    assert(h as int != t as int);
                    let i = choose|i: int|
                        0 <= i < pre.stack.len() && pre.stack@[i] as int == h as int;
                    assert(i != last);
                    assert(post.stack@[i] as int == h as int);
                    assert(post.task_on_stack(h as int));
                },
                _ => {},
            }
        }
        assert forall|r: int| post.valid_resource(r) implies post.ceiling_respected(r) by {
            assert(pre.ceiling_respected(r));
            assert forall|j: int| 0 <= j < post.stack.len() implies post.tasks@[post.stack@[j] as int].priority
                == pre.tasks@[pre.stack@[j] as int].priority by {}
            match post.resources@[r].owner {
                Option::Some(Holder::Job(h)) => {
                    assert(post.tasks@[h as int].priority == pre.tasks@[h as int].priority);
                },
                _ => {},
            }
        }
    }

    /// Acquire a resource for whoever executes, raising the executor to
    /// the resource's ceiling for as long as it is held (the preemption
    /// test accounts for every held ceiling). Nested acquisition by the
    /// holder deepens the lock. There is no waiting: under the ceiling
    /// discipline a permitted request never finds the resource held by
    /// anyone else, so the only failures are configuration defects — an
    /// unregistered handle, a tier above the ceiling, or exhausted depth.
    pub fn acquire(&mut self, rid: usize) -> (r: Result<(), RuntimeLockError>)
        requires
            old(self).wf(),
        ensures
            final(self).wf(),
            final(self).tasks@ == old(self).tasks@,
            final(self).stack@ == old(self).stack@,
            final(self).missed_deadlines == old(self).missed_deadlines,
            final(self).started == old(self).started,
            match r {
                Ok(_) => {
                    &&& (rid as int) < old(self).resources.len()
                    &&& (old(self).executor() matches Holder::Job(u) ==> old(self).tasks@[u
                        as int].priority <= old(self).resources@[rid as int].ceiling)
                    &&& old(self).resources@[rid as int].lock_depth < MAX_LOCK_DEPTH
                    &&& (old(self).resources@[rid as int].owner is None || old(self).resources@[rid
                        as int].owner == Some(old(self).executor()))
                    &&& final(self).resources@ == old(self).resources@.update(
                        rid as int,
                        (ResourceDescriptor {
                            ceiling: old(self).resources@[rid as int].ceiling,
                            owner: Some(old(self).executor()),
                            lock_depth: (old(self).resources@[rid as int].lock_depth + 1) as u32,
                        }),
                    )
                },
                Err(RuntimeLockError::UnregisteredResource) => {
                    &&& (rid as int) >= old(self).resources.len()
                    &&& final(self).resources@ == old(self).resources@
                },
                Err(RuntimeLockError::CeilingBelowPriority) => {
                    &&& (rid as int) < old(self).resources.len()
                    &&& (old(self).executor() matches Holder::Job(u) && old(self).tasks@[u
                        as int].priority > old(self).resources@[rid as int].ceiling)
                    &&& final(self).resources@ == old(self).resources@
                },
                Err(RuntimeLockError::DepthExceeded) => {
                    &&& (rid as int) < old(self).resources.len()
                    &&& old(self).resources@[rid as int].owner == Some(old(self).executor())
                    &&& old(self).resources@[rid as int].lock_depth == MAX_LOCK_DEPTH
                    &&& final(self).resources@ == old(self).resources@
                },
                Err(RuntimeLockError::NotHeld) => false,
            },
    {
        if rid >= self.resources.len() {
            return Err(RuntimeLockError::UnregisteredResource);
        }
        let e = self.current_holder();
        let rd = self.resources[rid];
        match e {
            Holder::Job(u) => {
                proof {
                    assert(u == old(self).stack@.last());
                    assert((u as int) < self.tasks.len());
                }
                if self.tasks[u].priority > rd.ceiling {
                    return Err(RuntimeLockError::CeilingBelowPriority);
                }
            },
            Holder::IdleTask => {},
        }
        match rd.owner {
            Option::None => {
                proof {
                    assert(old(self).resource_wf(rid as int));
                    assert(old(self).resources@[rid as int].lock_depth == 0);
                }
                self.resources[rid] = ResourceDescriptor {
                    ceiling: rd.ceiling,
                    owner: Some(e),
                    lock_depth: 1,
                };
                proof {
                    Self::lemma_grant_preserves_wf(*old(self), *self, rid);
                }
                Ok(())
            },
            Option::Some(h) => {
                if h == e {
                    if rd.lock_depth == MAX_LOCK_DEPTH {
                        return Err(RuntimeLockError::DepthExceeded);
                    }
                    self.resources[rid] = ResourceDescriptor {
                        ceiling: rd.ceiling,
                        owner: Some(e),
                        lock_depth: rd.lock_depth + 1,
                    };
                    proof {
                        Self::lemma_grant_preserves_wf(*old(self), *self, rid);
                    }
                    Ok(())
                } else {
                    proof {
                        Self::lemma_available_when_permitted(*self, rid as int);
                    }
                    Err(RuntimeLockError::NotHeld)
                }
            },
        }
    }

    /// Granting (or deepening) a resource to the executor preserves
    /// well-formedness.
    proof fn lemma_grant_preserves_wf(pre: Scheduler, post: Scheduler, rid: usize)
        requires
            pre.wf(),
            pre.valid_resource(rid as int),
            post.tasks@ == pre.tasks@,
            post.stack@ == pre.stack@,
            pre.resources@[rid as int].owner is None || pre.resources@[rid as int].owner == Some(
                pre.executor(),
            ),
            post.resources@[rid as int].ceiling == pre.resources@[rid as int].ceiling,
            post.resources@[rid as int].owner == Some(pre.executor()),
            post.resources@[rid as int].lock_depth > 0,
            post.resources@[rid as int].lock_depth <= MAX_LOCK_DEPTH,
            forall|r2: int| #![trigger post.resources@[r2]]
                pre.valid_resource(r2) && r2 != rid as int ==> post.resources@[r2]
                    == pre.resources@[r2],
            post.resources@.len() == pre.resources@.len(),
        ensures
            post.wf(),
    {
        assert forall|t2: int| post.valid_task(t2) implies (Self::active_state(
            post.tasks@[t2].state,
        ) <==> post.task_on_stack(t2)) by {
            Self::lemma_on_stack_equiv(pre, post, t2);
        }
        assert forall|r2: int| post.valid_resource(r2) implies post.resource_wf(r2) by {
            assert(pre.resource_wf(r2));
            match post.resources@[r2].owner {
                Option::Some(Holder::Job(h)) => {
                    if r2 == rid as int {
                        assert(pre.stack.len() > 0);
                        assert(pre.stack@[pre.stack.len() - 1] as int == h as int);
                        assert(pre.task_on_stack(h as int));
                    }
                    Self::lemma_on_stack_equiv(pre, post, h as int);
                },
                _ => {},
            }
        }
        assert forall|r2: int| post.valid_resource(r2) implies post.ceiling_respected(r2) by {
            assert(pre.ceiling_respected(r2));
            if r2 == rid as int {
                match pre.executor() {
                    Holder::Job(u) => {
                        let last = pre.stack.len() - 1;
                        assert forall|j: int|
                            0 <= j < post.stack.len() && post.tasks@[post.stack@[j] as int].priority
                                > post.tasks@[u as int].priority implies post.tasks@[post.stack@[j]
                            as int].priority > post.resources@[r2].ceiling by {
                            if j < last {
                                assert(pre.tasks@[pre.stack@[j] as int].priority
                                    < pre.tasks@[pre.stack@[last] as int].priority);
                            }
                            assert(false);
                        }
                    },
                    Holder::IdleTask => {
                        assert(pre.stack.len() == 0);
                    },
                }
            }
        }
    }

    /// Release one level of a held resource; the lock clears when the
    /// depth returns to zero. Only the current executor can release, and
    /// only a resource it holds; the caller re-evaluates scheduling
    /// afterwards, since the executor's effective priority just dropped.
    pub fn release(&mut self, rid: usize) -> (r: Result<(), RuntimeLockError>)
        requires
            old(self).wf(),
        ensures
            final(self).wf(),
            final(self).tasks@ == old(self).tasks@,
            final(self).stack@ == old(self).stack@,
            final(self).missed_deadlines == old(self).missed_deadlines,
            final(self).started == old(self).started,
            match r {
                Ok(_) => {
                    &&& (rid as int) < old(self).resources.len()
                    &&& old(self).resources@[rid as int].owner == Some(old(self).executor())
                    &&& final(self).resources@ == old(self).resources@.update(
                        rid as int,
                        (ResourceDescriptor {
                            ceiling: old(self).resources@[rid as int].ceiling,
                            owner: if old(self).resources@[rid as int].lock_depth == 1 {
                                None
                            } else {
                                Some(old(self).executor())
                            },
                            lock_depth: (old(self).resources@[rid as int].lock_depth - 1) as u32,
                        }),
                    )
                },
                Err(RuntimeLockError::UnregisteredResource) => {
                    &&& (rid as int) >= old(self).resources.len()
                    &&& final(self).resources@ == old(self).resources@
                },
                Err(RuntimeLockError::NotHeld) => {
                    &&& (rid as int) < old(self).resources.len()
                    &&& old(self).resources@[rid as int].owner != Some(old(self).executor())
                    &&& final(self).resources@ == old(self).resources@
                },
                _ => false,
            },
    {
        if rid >= self.resources.len() {
            return Err(RuntimeLockError::UnregisteredResource);
        }
        let e = self.current_holder();
        let rd = self.resources[rid];
        match rd.owner {
            Option::Some(h) => {
                if h == e {
                    proof {
                        assert(self.resource_wf(rid as int));
                    }
                    let nd = rd.lock_depth - 1;
                    self.resources[rid] = ResourceDescriptor {
                        ceiling: rd.ceiling,
                        owner: if nd == 0 {
                            Option::None
                        } else {
                            Option::Some(e)
                        },
                        lock_depth: nd,
                    };
                    proof {
                        Self::lemma_release_preserves_wf(*old(self), *self, rid);
                    }
                    Ok(())
                } else {
                    Err(RuntimeLockError::NotHeld)
                }
            },
            Option::None => Err(RuntimeLockError::NotHeld),
        }
    }

    /// Weakening a lock (same owner or none at all, same ceiling)
    /// preserves well-formedness.
    proof fn lemma_release_preserves_wf(pre: Scheduler, post: Scheduler, rid: usize)
        requires
            pre.wf(),
            pre.valid_resource(rid as int),
            post.tasks@ == pre.tasks@,
            post.stack@ == pre.stack@,
            post.resources@[rid as int].ceiling == pre.resources@[rid as int].ceiling,
            post.resources@[rid as int].owner is None || post.resources@[rid as int].owner
                == pre.resources@[rid as int].owner,
            post.resources@[rid as int].lock_depth > 0 <==> post.resources@[rid as int].owner
                is Some,
            post.resources@[rid as int].lock_depth <= pre.resources@[rid as int].lock_depth,
            forall|r2: int| #![trigger post.resources@[r2]]
                pre.valid_resource(r2) && r2 != rid as int ==> post.resources@[r2]
                    == pre.resources@[r2],
            post.resources@.len() == pre.resources@.len(),
        ensures
            post.wf(),
    {
        assert forall|t2: int| post.valid_task(t2) implies (Self::active_state(
            post.tasks@[t2].state,
        ) <==> post.task_on_stack(t2)) by {
            Self::lemma_on_stack_equiv(pre, post, t2);
        }
        assert forall|r2: int| post.valid_resource(r2) implies post.resource_wf(r2) by {
            assert(pre.resource_wf(r2));
            match post.resources@[r2].owner {
                Option::Some(Holder::Job(h)) => {
                    assert(pre.resources@[r2].owner == Some(Holder::Job(h)));
                    Self::lemma_on_stack_equiv(pre, post, h as int);
                },
                _ => {},
            }
        }
        assert forall|r2: int| post.valid_resource(r2) implies post.ceiling_respected(r2) by {
            assert(pre.ceiling_respected(r2));
            match post.resources@[r2].owner {
                Option::Some(_) => {
                    assert(pre.resources@[r2].owner == post.resources@[r2].owner);
                },
                Option::None => {},
            }
        }
    }

    /// Mutual exclusion: a resource never has two holders.
    pub proof fn lemma_mutual_exclusion(s: Scheduler, r: int, h1: Holder, h2: Holder)
        requires
            s.owns(h1, r),
            s.owns(h2, r),
        ensures
            h1 == h2,
    {
    }

    /// A resource is locked (depth above zero) exactly while it has an
    /// owner.
    pub proof fn lemma_locked_iff_owned(s: Scheduler, r: int)
        requires
            s.wf(),
            s.valid_resource(r),
        ensures
            s.resources@[r].lock_depth > 0 <==> s.resources@[r].owner is Some,
    {
        assert(s.resource_wf(r));
    }

    /// The heart of the ceiling protocol: while anyone holds a resource,
    /// no task with priority at or below its ceiling can start running.
    /// The blocked task starts strictly after the holder releases, and
    /// nothing the blocked task does extends the holder's critical
    /// section: there is no mutual wait.
    pub proof fn lemma_ceiling_blocks(s: Scheduler, r: int, p: u8)
        requires
            s.wf(),
            s.valid_resource(r),
            s.resources@[r].owner is Some,
            p <= s.resources@[r].ceiling,
        ensures
            !s.exceeds_effective(p),
    {
        if s.exceeds_effective(p) {
            let h = s.resources@[r].owner->0;
            if h == s.executor() {
                assert(s.owns(s.executor(), r));
                assert(p > s.resources@[r].ceiling);
            } else {
                assert(s.resource_wf(r));
                assert(s.ceiling_respected(r));
                match h {
                    Holder::Job(ht) => {
                        assert(s.task_on_stack(ht as int));
                        let i = choose|i: int|
                            0 <= i < s.stack.len() && s.stack@[i] as int == ht as int;
                        assert(s.stack.len() > 0);
                        let last = s.stack.len() - 1;
                        let u = s.stack@[last];
                        assert(s.executor() == Holder::Job(u));
                        assert(i != last);
                        assert(s.tasks@[ht as int].priority < s.tasks@[u as int].priority);
                        assert(s.tasks@[u as int].priority > s.resources@[r].ceiling);
                        assert(p > s.tasks@[u as int].priority);
                    },
                    Holder::IdleTask => {
                        assert(s.stack.len() > 0);
                        let last = s.stack.len() - 1;
                        let u = s.stack@[last];
                        assert(s.tasks@[u as int].priority > s.resources@[r].ceiling);
                        assert(p > s.tasks@[u as int].priority);
                    },
                }
            }
        }
    }

    /// Freedom from deadlock and waiting: a request permitted by the
    /// ceiling discipline (the executor's priority does not exceed the
    /// resource's ceiling; the idle loop is below every ceiling) finds
    /// the resource free or already its own. No task ever waits on a
    /// lower-priority holder.
    pub proof fn lemma_available_when_permitted(s: Scheduler, r: int)
        requires
            s.wf(),
            s.valid_resource(r),
            s.executor() matches Holder::Job(u) ==> s.tasks@[u as int].priority
                <= s.resources@[r].ceiling,
        ensures
            s.resources@[r].owner is None || s.resources@[r].owner == Some(s.executor()),
    {
        match s.resources@[r].owner {
            Option::None => {},
            Option::Some(h) => {
                if h != s.executor() {
                    assert(s.resource_wf(r));
                    assert(s.ceiling_respected(r));
                    match h {
                        Holder::Job(ht) => {
                            assert(s.task_on_stack(ht as int));
                            let i = choose|i: int|
                                0 <= i < s.stack.len() && s.stack@[i] as int == ht as int;
                            assert(s.stack.len() > 0);
                            let last = s.stack.len() - 1;
                            let u = s.stack@[last];
                            assert(s.executor() == Holder::Job(u));
                            assert(i != last);
                            assert(s.tasks@[ht as int].priority < s.tasks@[u as int].priority);
                            assert(s.tasks@[u as int].priority > s.resources@[r].ceiling);
                        },
                        Holder::IdleTask => {
                            assert(s.stack.len() > 0);
                            let last = s.stack.len() - 1;
                            let u = s.stack@[last];
                            assert(s.executor() == Holder::Job(u));
                            assert(s.tasks@[u as int].priority > s.resources@[r].ceiling);
                        },
                    }
                }
            },
        }
    }

    /// The idle loop never starves ready work: while it holds no
    /// resource, any priority at all exceeds its effective priority, so
    /// the first ready task preempts it at the next scheduling
    /// re-evaluation.
    pub proof fn lemma_idle_immediately_preempted(s: Scheduler, p: u8)
        requires
            s.stack.len() == 0,
            forall|r: int| !s.owns(Holder::IdleTask, r),
        ensures
            s.exceeds_effective(p),
    {
        assert(s.executor() == Holder::IdleTask);
    }

    /// Effective priority is monotone: whatever a lower priority exceeds,
    /// a higher one exceeds too.
    proof fn lemma_exceeds_monotone(s: Scheduler, p1: u8, p2: u8)
        requires
            p1 <= p2,
            s.exceeds_effective(p1),
        ensures
            s.exceeds_effective(p2),
    {
        assert forall|r: int| s.owns(s.executor(), r) implies p2 > s.resources@[r].ceiling by {
            assert(p1 > s.resources@[r].ceiling);
        }
    }

    /// Pushing a ready task that exceeds the executor's effective priority
    /// preserves well-formedness.
    proof fn lemma_preempt_preserves_wf(pre: Scheduler, post: Scheduler, t: usize, now: u32)
        requires
            pre.wf(),
            pre.ready_at(t as int, now),
            pre.exceeds_effective(pre.tasks@[t as int].priority),
            post.stack@ == pre.stack@.push(t),
            post.resources@ == pre.resources@,
            post.tasks@.len() == pre.tasks@.len(),
            post.tasks@[t as int] == (TaskDescriptor {
                state: TaskState::Running,
                ..pre.tasks@[t as int]
            }),
            pre.stack.len() > 0 ==> post.tasks@[pre.stack@.last() as int] == (TaskDescriptor {
                state: TaskState::Preempted,
                ..pre.tasks@[pre.stack@.last() as int]
            }),
            forall|u: int| #![trigger post.tasks@[u]]
                pre.valid_task(u) && u != t as int && (pre.stack.len() == 0 || u
                    != pre.stack@.last() as int) ==> post.tasks@[u] == pre.tasks@[u],
        ensures
            post.wf(),
    {
        let p = pre.tasks@[t as int].priority;
        // The new task was not on the stack: it was in the scheduled state.
        assert forall|i: int| 0 <= i < pre.stack.len() implies pre.stack@[i] as int
            != t as int by {
            if pre.stack@[i] as int == t as int {
                assert(pre.task_on_stack(t as int));
                assert(Self::active_state(pre.tasks@[t as int].state));
            }
        }
        // Priorities along the old stack are below p.
        assert forall|i: int| 0 <= i < pre.stack.len() implies pre.tasks@[pre.stack@[i] as int].priority
            < p by {
            let last = pre.stack.len() - 1;
            assert(p > pre.tasks@[pre.stack@[last] as int].priority);
            if i < last {
                assert(pre.tasks@[pre.stack@[i] as int].priority < pre.tasks@[pre.stack@[last] as int].priority);
            }
        }
        // Priorities are unchanged everywhere.
        assert forall|u: int| post.valid_task(u) implies post.tasks@[u].priority
            == pre.tasks@[u].priority by {
            if u != t as int && (pre.stack.len() == 0 || u != pre.stack@.last() as int) {
                assert(post.tasks@[u] == pre.tasks@[u]);
            }
        }
        // Stack well-formedness.
        assert forall|i: int, j: int| 0 <= i < j < post.stack.len() implies post.tasks@[post.stack@[i] as int].priority
            < post.tasks@[post.stack@[j] as int].priority by {
            if j == post.stack.len() - 1 {
                assert(post.stack@[j] == t);
            }
        }
        assert forall|t2: int| post.valid_task(t2) implies (Self::active_state(
            post.tasks@[t2].state,
        ) <==> post.task_on_stack(t2)) by {
            if t2 == t as int {
                assert(post.stack@[post.stack.len() - 1] as int == t2);
                assert(post.task_on_stack(t2));
            } else if pre.stack.len() > 0 && t2 == pre.stack@.last() as int {
                let last = pre.stack.len() - 1;
                assert(post.stack@[last] as int == t2);
                assert(post.task_on_stack(t2));
            } else {
                assert(post.tasks@[t2] == pre.tasks@[t2]);
                assert forall|i: int|
                    0 <= i < post.stack.len() && post.stack@[i] as int == t2 implies pre.task_on_stack(
                    t2,
                ) by {
                    assert(i < pre.stack.len());
                }
                if pre.task_on_stack(t2) {
                    let i = choose|i: int| 0 <= i < pre.stack.len() && pre.stack@[i] as int == t2;
                    assert(post.stack@[i] as int == t2);
                    assert(post.task_on_stack(t2));
                }
            }
        }
        // Resource well-formedness: owners keep their stack positions.
        assert forall|r: int| post.valid_resource(r) implies post.resource_wf(r) by {
            assert(pre.resource_wf(r));
            match pre.resources@[r].owner {
                Option::Some(Holder::Job(h)) => {
                    let i = choose|i: int|
                        0 <= i < pre.stack.len() && pre.stack@[i] as int == h as int;
                    assert(post.stack@[i] as int == h as int);
                    assert(post.task_on_stack(h as int));
                },
                _ => {},
            }
        }
        // The ceiling discipline: the newcomer outranks every held ceiling.
        assert forall|r: int| post.valid_resource(r) && post.owns(Holder::IdleTask, r) implies p
            > post.resources@[r].ceiling by {
            assert(pre.ceiling_respected(r));
            if pre.stack.len() == 0 {
                assert(pre.owns(pre.executor(), r));
            } else {
                let last = pre.stack.len() - 1;
                assert(pre.tasks@[pre.stack@[last] as int].priority > pre.resources@[r].ceiling);
            }
        }
        assert forall|r: int, h: usize|
            post.valid_resource(r) && post.owns(Holder::Job(h), r) implies p
            > post.resources@[r].ceiling by {
            assert(pre.resource_wf(r));
            assert(pre.ceiling_respected(r));
            assert(pre.stack.len() > 0);
            let last = pre.stack.len() - 1;
            let topid = pre.stack@[last] as int;
            if h as int == topid {
                assert(pre.owns(pre.executor(), r));
            } else {
                let i = choose|i: int|
                    0 <= i < pre.stack.len() && pre.stack@[i] as int == h as int;
                assert(i < last);
                assert(pre.tasks@[h as int].priority < pre.tasks@[topid].priority);
                assert(pre.tasks@[topid].priority > pre.resources@[r].ceiling);
            }
        }
        assert forall|r: int| post.valid_resource(r) implies post.ceiling_respected(r) by {
            assert(pre.ceiling_respected(r));
            match post.resources@[r].owner {
                Option::None => {},
                Option::Some(Holder::IdleTask) => {
                    assert forall|j: int| 0 <= j < post.stack.len() implies post.tasks@[post.stack@[j] as int].priority
                        > post.resources@[r].ceiling by {
                        if j == post.stack.len() - 1 {
                            assert(post.owns(Holder::IdleTask, r));
                        } else {
                            assert(pre.stack.len() > 0);
                        }
                    }
                },
                Option::Some(Holder::Job(h)) => {
                    assert forall|j: int|
                        0 <= j < post.stack.len() && post.tasks@[post.stack@[j] as int].priority
                            > post.tasks@[h as int].priority implies post.tasks@[post.stack@[j] as int].priority
                        > post.resources@[r].ceiling by {
                        if j == post.stack.len() - 1 {
                            assert(post.owns(Holder::Job(h), r));
                        }
                    }
                },
            }
        }
    }
}

} // verus!
