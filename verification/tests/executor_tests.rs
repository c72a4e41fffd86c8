use rust_os::executor::Executor;
use rust_os::task::{Task, TaskId, TaskIdCounter, TaskWork, WorkStep};

fn spawn_with(executor: &mut Executor, ids: &mut TaskIdCounter, steps: Vec<WorkStep>) -> TaskId {
    let task = Task::new(TaskWork::new(steps), ids);
    let id = task.id;
    executor.spawn(task);
    id
}

#[test]
fn immediate_tasks_complete_in_spawn_order() {
    let mut ids = TaskIdCounter::new();
    let mut executor = Executor::new();
    let a = spawn_with(&mut executor, &mut ids, vec![]);
    let b = spawn_with(&mut executor, &mut ids, vec![]);
    let c = spawn_with(&mut executor, &mut ids, vec![]);
    executor.run_ready_tasks();
    assert_eq!(executor.completed, vec![a, b, c]);
    assert!(executor.tasks.is_empty());
    assert!(executor.queue.is_empty());
}

#[test]
fn spawned_then_suspending_task_completes_after_its_wake() {
    // one task completes at once, one suspends once and waits for its wake
    let mut ids = TaskIdCounter::new();
    let mut executor = Executor::new();
    let immediate = spawn_with(&mut executor, &mut ids, vec![]);
    let suspending = spawn_with(&mut executor, &mut ids, vec![WorkStep::Park]);
    executor.run_ready_tasks();
    assert_eq!(executor.completed, vec![immediate]);
    assert_eq!(executor.tasks.len(), 1, "the parked task stays registered");
    executor.wake_task(suspending);
    executor.run_ready_tasks();
    assert_eq!(executor.completed, vec![immediate, suspending]);
    assert!(executor.tasks.is_empty());
}

#[test]
fn yielding_task_finishes_in_one_run() {
    let mut ids = TaskIdCounter::new();
    let mut executor = Executor::new();
    let a = spawn_with(&mut executor, &mut ids, vec![WorkStep::YieldNow, WorkStep::YieldNow]);
    let b = spawn_with(&mut executor, &mut ids, vec![]);
    executor.run_ready_tasks();
    // the yielding task goes to the back of the queue after each yield
    assert_eq!(executor.completed, vec![b, a]);
}

#[test]
fn stale_wake_has_no_observable_effect() {
    let mut ids = TaskIdCounter::new();
    let mut executor = Executor::new();
    let done = spawn_with(&mut executor, &mut ids, vec![]);
    executor.run_ready_tasks();
    assert_eq!(executor.completed, vec![done]);
    // the task has completed: a late wake neither panics nor enqueues
    executor.wake_task(done);
    assert!(executor.queue.is_empty());
    executor.run_ready_tasks();
    assert_eq!(executor.completed, vec![done]);
}

#[test]
fn wake_for_unknown_id_is_ignored() {
    let mut ids = TaskIdCounter::new();
    let mut executor = Executor::new();
    let parked = spawn_with(&mut executor, &mut ids, vec![WorkStep::Park]);
    executor.run_ready_tasks();
    executor.wake_task(TaskId(999));
    assert!(executor.queue.is_empty());
    executor.run_ready_tasks();
    assert!(executor.completed.is_empty());
    assert_eq!(executor.tasks.len(), 1);
    // the right wake still works afterwards
    executor.wake_task(parked);
    executor.run_ready_tasks();
    assert_eq!(executor.completed, vec![parked]);
}

#[test]
fn duplicate_wake_does_not_skip_a_suspension() {
    let mut ids = TaskIdCounter::new();
    let mut executor = Executor::new();
    let id = spawn_with(&mut executor, &mut ids, vec![WorkStep::Park, WorkStep::Park]);
    executor.run_ready_tasks();
    executor.wake_task(id);
    executor.wake_task(id);
    assert_eq!(executor.queue.len(), 1, "a queued task is not enqueued twice");
    executor.run_ready_tasks();
    assert!(executor.completed.is_empty(), "the second suspension still parks");
    executor.wake_task(id);
    executor.run_ready_tasks();
    assert_eq!(executor.completed, vec![id]);
}
