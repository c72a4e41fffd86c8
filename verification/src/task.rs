//! Tasks: units of deferred, possibly-suspending work with unique,
//! monotonically increasing identifiers.
//!
//! A task's work is an explicit resumption state machine: a finite script of
//! suspension points, each either yielding (ready to continue at once) or
//! parking (waiting for an outside wake event), consumed one point per poll;
//! a poll past the last point completes the task.

use vstd::prelude::*;

verus! {

/// A unique task identifier, assigned at creation and never reused.
#[derive(Clone, Copy, Debug, PartialEq, Eq, PartialOrd, Ord, Structural)]
pub struct TaskId(pub u64);

/// The kernel-lifetime source of task identifiers: a counter that only ever
/// moves forward, initialized once at startup.
pub struct TaskIdCounter {
    pub next: u64,
}

impl TaskIdCounter {
    pub fn new() -> (r: TaskIdCounter)
        ensures
            r.next == 0,
    {
        TaskIdCounter { next: 0 }
    }
}

impl TaskId {
    /// Draw a fresh identifier: the counter's current value, after which the
    /// counter advances, so no identifier is ever handed out twice.
    pub fn new(counter: &mut TaskIdCounter) -> (r: TaskId)
        requires
            old(counter).next < u64::MAX,
        ensures
            r.0 == old(counter).next,
            final(counter).next == old(counter).next + 1,
    {
        let id = TaskId(counter.next);
        counter.next = counter.next + 1;
        id
    }
}

/// Task identifiers are strictly increasing across the kernel's lifetime:
/// an identifier issued while the counter stood lower is strictly smaller
/// than one issued later, so identifiers never repeat, even after the
/// earlier task has completed.
pub proof fn lemma_task_ids_strictly_increasing(
    c0: TaskIdCounter,
    c1: TaskIdCounter,
    id0: TaskId,
    id1: TaskId,
)
    requires
        id0.0 == c0.next,
        id1.0 == c1.next,
        c0.next < c1.next,
    ensures
        id0.0 < id1.0,
        id0 != id1,
{
}

/// One suspension point of a task's work.
#[derive(Clone, Copy, Debug, PartialEq, Eq, Structural)]
pub enum WorkStep {
    /// Suspend but wake at once: ready to continue without an outside event.
    YieldNow,
    /// Suspend until an outside wake event arrives.
    Park,
}

/// A task's unit of suspendable work: its remaining suspension points, and
/// how far it has progressed. Progression only ever moves forward; the work
/// is never rewound or relocated.
#[derive(Clone, Debug)]
pub struct TaskWork {
    pub steps: Vec<WorkStep>,
    pub pos: usize,
}

/// The work's cursor never passes its script.
pub open spec fn work_wf(w: TaskWork) -> bool {
    w.pos <= w.steps@.len()
}

impl TaskWork {
    /// Fresh work at the start of its script.
    pub fn new(steps: Vec<WorkStep>) -> (r: TaskWork)
        ensures
            r.steps == steps,
            r.pos == 0,
            work_wf(r),
    {
        TaskWork { steps, pos: 0 }
    }
}

/// The wake registration side of a poll: the executor hands this to the
/// task, and the task marks it woken when it is ready to continue without an
/// outside event.
pub struct WakeContext {
    pub woken: bool,
}

impl WakeContext {
    pub fn new() -> (r: WakeContext)
        ensures
            !r.woken,
    {
        WakeContext { woken: false }
    }

    /// Signal that the polled task may be re-enqueued at once.
    pub fn wake(&mut self)
        ensures
            final(self).woken,
    {
        self.woken = true;
    }
}

/// What a poll reports: the work completed, or it suspended.
#[derive(Clone, Copy, Debug, PartialEq, Eq, Structural)]
pub enum Poll {
    Ready,
    Pending,
}

/// A unit of deferred work plus its unique identifier.
#[derive(Clone, Debug)]
pub struct Task {
    pub id: TaskId,
    pub work: TaskWork,
}

/// A task whose work has not outrun its script.
pub open spec fn task_wf(t: Task) -> bool {
    work_wf(t.work)
}

impl Task {
    /// Wrap a unit of work in a task, drawing a fresh, never-reused
    /// identifier from the kernel's counter.
    pub fn new(work: TaskWork, counter: &mut TaskIdCounter) -> (t: Task)
        requires
            old(counter).next < u64::MAX,
            work_wf(work),
        ensures
            t.id.0 == old(counter).next,
            final(counter).next == old(counter).next + 1,
            t.work == work,
            task_wf(t),
    {
        Task { id: TaskId::new(counter), work }
    }

    /// Resume the work until it completes or voluntarily suspends. A
    /// suspension consumes the next point of the script; a yielding point
    /// registers an immediate wake in the context, a parking point leaves
    /// the wake to a later outside event.
    pub fn poll(&mut self, context: &mut WakeContext) -> (r: Poll)
        requires
            task_wf(*old(self)),
        ensures
            task_wf(*final(self)),
            final(self).id == old(self).id,
            final(self).work.steps == old(self).work.steps,
            old(self).work.pos == old(self).work.steps@.len() ==> r is Ready && *final(self)
                == *old(self) && *final(context) == *old(context),
            old(self).work.pos < old(self).work.steps@.len() ==> {
                &&& r is Pending
                &&& final(self).work.pos == old(self).work.pos + 1
                &&& final(context).woken == (old(context).woken || old(self).work.steps@[old(
                    self,
                ).work.pos as int] is YieldNow)
            },
    {
        if self.work.pos == self.work.steps.len() {
            Poll::Ready
        } else {
            let step = self.work.steps[self.work.pos];
            self.work.pos = self.work.pos + 1;
            match step {
                WorkStep::YieldNow => context.wake(),
                WorkStep::Park => {},
            }
            Poll::Pending
        }
    }
}

} // verus!
