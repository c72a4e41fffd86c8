use rust_os::task::{Poll, Task, TaskId, TaskIdCounter, TaskWork, WakeContext, WorkStep};

#[test]
fn task_ids_strictly_increase() {
    let mut ids = TaskIdCounter::new();
    let a = Task::new(TaskWork::new(vec![]), &mut ids);
    let b = Task::new(TaskWork::new(vec![WorkStep::Park]), &mut ids);
    let c = Task::new(TaskWork::new(vec![]), &mut ids);
    assert_eq!(a.id, TaskId(0));
    assert_eq!(b.id, TaskId(1));
    assert_eq!(c.id, TaskId(2));
    assert!(a.id < b.id && b.id < c.id);
}

#[test]
fn ids_never_repeat_after_completion() {
    let mut ids = TaskIdCounter::new();
    let early = Task::new(TaskWork::new(vec![]), &mut ids).id;
    drop(Task::new(TaskWork::new(vec![]), &mut ids));
    // even with every earlier task gone, fresh identifiers keep climbing
    let late = Task::new(TaskWork::new(vec![]), &mut ids).id;
    assert_eq!(late, TaskId(2));
    assert_ne!(early, late);
}

#[test]
fn empty_work_is_ready_at_once() {
    let mut ids = TaskIdCounter::new();
    let mut task = Task::new(TaskWork::new(vec![]), &mut ids);
    let mut cx = WakeContext::new();
    assert_eq!(task.poll(&mut cx), Poll::Ready);
    assert!(!cx.woken);
}

#[test]
fn parking_work_suspends_then_completes() {
    let mut ids = TaskIdCounter::new();
    let mut task = Task::new(TaskWork::new(vec![WorkStep::Park]), &mut ids);
    let mut cx = WakeContext::new();
    assert_eq!(task.poll(&mut cx), Poll::Pending);
    assert!(!cx.woken, "a parked task waits for an outside wake");
    assert_eq!(task.poll(&mut cx), Poll::Ready);
}

#[test]
fn yielding_work_requests_an_immediate_wake() {
    let mut ids = TaskIdCounter::new();
    let mut task = Task::new(TaskWork::new(vec![WorkStep::YieldNow]), &mut ids);
    let mut cx = WakeContext::new();
    assert_eq!(task.poll(&mut cx), Poll::Pending);
    assert!(cx.woken, "a yielding task is ready to continue at once");
}
