//! The cooperative executor: a FIFO queue of ready task identifiers and a
//! registry of live tasks, driven by polls and explicit wake events.

use vstd::prelude::*;

use crate::task::{task_wf, Poll, Task, TaskId, WakeContext};

verus! {

/// The cooperative scheduler's state: the registry of live tasks, the FIFO
/// queue of ready identifiers, and the log of completed identifiers in
/// completion order.
pub struct Executor {
    pub tasks: Vec<Task>,
    pub queue: Vec<TaskId>,
    pub completed: Vec<TaskId>,
}

/// `id` is present in the registry.
pub open spec fn registered(e: Executor, id: TaskId) -> bool {
    exists|i: int| 0 <= i < e.tasks@.len() && (#[trigger] e.tasks@[i]).id == id
}

/// Executor well-formedness: registered identifiers are unique, every task's
/// work is within its script, the queue holds no duplicates, and every
/// queued identifier is registered.
pub open spec fn executor_wf(e: Executor) -> bool {
    &&& forall|a: int, b: int|
        0 <= a < b < e.tasks@.len() ==> (#[trigger] e.tasks@[a]).id != (#[trigger] e.tasks@[b]).id
    &&& forall|i: int| 0 <= i < e.tasks@.len() ==> task_wf(#[trigger] e.tasks@[i])
    &&& forall|a: int, b: int|
        0 <= a < b < e.queue@.len() ==> (#[trigger] e.queue@[a]) != (#[trigger] e.queue@[b])
    &&& forall|q: int| 0 <= q < e.queue@.len() ==> registered(e, #[trigger] e.queue@[q])
}

/// How many suspension points a task's work has left to consume.
pub open spec fn steps_left(t: Task) -> nat {
    if task_wf(t) {
        (t.work.steps@.len() - t.work.pos) as nat
    } else {
        0
    }
}

/// The suspension points left over a whole registry: the run loop's
/// termination measure.
pub open spec fn total_steps(s: Seq<Task>) -> nat
    decreases s.len(),
{
    if s.len() == 0 {
        0
    } else {
        steps_left(s[0]) + total_steps(s.drop_first())
    }
}

proof fn lemma_total_steps_remove(s: Seq<Task>, k: int)
    requires
        0 <= k < s.len(),
    ensures
        total_steps(s) == total_steps(s.remove(k)) + steps_left(s[k]),
    decreases s.len(),
{
    if k == 0 {
        assert(s.remove(0) =~= s.drop_first());
    } else {
        lemma_total_steps_remove(s.drop_first(), k - 1);
        assert(s.remove(k).drop_first() =~= s.drop_first().remove(k - 1));
        assert(s.remove(k)[0] == s[0]);
    }
}

proof fn lemma_total_steps_insert(s: Seq<Task>, k: int, t: Task)
    requires
        0 <= k <= s.len(),
    ensures
        total_steps(s.insert(k, t)) == total_steps(s) + steps_left(t),
    decreases s.len(),
{
    if k == 0 {
        assert(s.insert(0, t).drop_first() =~= s);
        assert(s.insert(0, t)[0] == t);
    } else {
        lemma_total_steps_insert(s.drop_first(), k - 1, t);
        assert(s.insert(k, t).drop_first() =~= s.drop_first().insert(k - 1, t));
        assert(s.insert(k, t)[0] == s[0]);
    }
}

/// `t` descends from a task of `orig`: same identifier, same script, and at
/// least as far along it.
pub open spec fn progressed_from(orig: Seq<Task>, t: Task) -> bool {
    exists|i: int|
        0 <= i < orig.len() && (#[trigger] orig[i]).id == t.id && orig[i].work.steps == t.work.steps
            && orig[i].work.pos <= t.work.pos
}

/// What the run loop maintains between iterations, relative to the state
/// `orig` it started from: well-formedness; every live task descends from a
/// task of `orig`; tasks that were not queued in `orig` are untouched; the
/// queue holds only identifiers queued in `orig`; the completion log of
/// `orig` is preserved as a prefix, and every identifier appended to it was
/// registered in `orig` and has left the registry; and every task gone from
/// the registry has been logged.
pub open spec fn run_inv(orig: Executor, cur: Executor) -> bool {
    &&& executor_wf(cur)
    &&& forall|j: int|
        0 <= j < cur.tasks@.len() ==> progressed_from(orig.tasks@, #[trigger] cur.tasks@[j])
    &&& forall|i: int|
        0 <= i < orig.tasks@.len() && !orig.queue@.contains((#[trigger] orig.tasks@[i]).id)
            ==> exists|j: int|
            0 <= j < cur.tasks@.len() && #[trigger] cur.tasks@[j] == orig.tasks@[i]
    &&& forall|q: int|
        0 <= q < cur.queue@.len() ==> orig.queue@.contains(#[trigger] cur.queue@[q])
    &&& cur.completed@.len() >= orig.completed@.len()
    &&& cur.completed@.take(orig.completed@.len() as int) == orig.completed@
    &&& forall|k: int|
        orig.completed@.len() <= k < cur.completed@.len() ==> registered(
            orig,
            #[trigger] cur.completed@[k],
        ) && !registered(cur, cur.completed@[k])
    &&& forall|i: int|
        0 <= i < orig.tasks@.len() && !registered(cur, (#[trigger] orig.tasks@[i]).id)
            ==> cur.completed@.skip(orig.completed@.len() as int).contains(orig.tasks@[i].id)
}

/// The script of `t` holds a parking point at or after its cursor.
pub open spec fn has_park_after(t: Task) -> bool {
    exists|k: int|
        t.work.pos <= k < t.work.steps@.len() && (#[trigger] t.work.steps@[k]) is Park
}

/// The script of `t` holds only yielding points from the cursor of `o` up
/// to (excluding) `upto`.
pub open spec fn yields_from(o: Task, t: Task, upto: int) -> bool {
    forall|k: int| o.work.pos <= k < upto ==> (#[trigger] t.work.steps@[k]) is YieldNow
}

/// Outcome bookkeeping of the run loop relative to the state `orig` it
/// started from. A task that was queued is either still queued having
/// consumed only yielding points, or parked just past its first parking
/// point; a queued task that left the registry had no parking point left
/// and ran to completion.
pub open spec fn run_outcomes(orig: Executor, cur: Executor) -> bool {
    &&& forall|j: int|
        0 <= j < cur.tasks@.len() && orig.queue@.contains((#[trigger] cur.tasks@[j]).id)
            ==> exists|i: int|
            {
                &&& 0 <= i < orig.tasks@.len()
                &&& (#[trigger] orig.tasks@[i]).id == cur.tasks@[j].id
                &&& orig.tasks@[i].work.steps == cur.tasks@[j].work.steps
                &&& orig.tasks@[i].work.pos <= cur.tasks@[j].work.pos
                &&& if cur.queue@.contains(cur.tasks@[j].id) {
                    yields_from(orig.tasks@[i], cur.tasks@[j], cur.tasks@[j].work.pos as int)
                } else {
                    &&& cur.tasks@[j].work.pos > orig.tasks@[i].work.pos
                    &&& cur.tasks@[j].work.steps@[cur.tasks@[j].work.pos - 1] is Park
                    &&& yields_from(orig.tasks@[i], cur.tasks@[j], cur.tasks@[j].work.pos - 1)
                }
            }
    &&& forall|i: int|
        0 <= i < orig.tasks@.len() && orig.queue@.contains((#[trigger] orig.tasks@[i]).id)
            && !registered(cur, orig.tasks@[i].id) ==> !has_park_after(orig.tasks@[i])
}

/// Popping the queue's head keeps the loop invariant; the popped identifier
/// is not among the rest of the queue.
proof fn lemma_after_pop(orig: Executor, pre: Executor, cur: Executor)
    requires
        run_inv(orig, pre),
        pre.queue@.len() > 0,
        cur.tasks@ == pre.tasks@,
        cur.completed@ == pre.completed@,
        cur.queue@ == pre.queue@.drop_first(),
    ensures
        run_inv(orig, cur),
        orig.queue@.contains(pre.queue@[0]),
        forall|q: int| 0 <= q < cur.queue@.len() ==> (#[trigger] cur.queue@[q]) != pre.queue@[0],
        registered(cur, pre.queue@[0]),
{
    assert(forall|q: int|
        0 <= q < cur.queue@.len() ==> #[trigger] cur.queue@[q] == pre.queue@[q + 1]);
    assert(registered(pre, pre.queue@[0]));
    assert forall|q: int| 0 <= q < cur.queue@.len() implies registered(
        cur,
        #[trigger] cur.queue@[q],
    ) by {
        assert(registered(pre, pre.queue@[q + 1]));
    }
    assert(registered(cur, pre.queue@[0]));
    assert(orig.queue@.contains(pre.queue@[0]));
}

/// Polling the task in slot `k` (advancing its work in place) keeps the loop
/// invariant.
proof fn lemma_after_poll(orig: Executor, pre: Executor, cur: Executor, k: int, id: TaskId)
    requires
        run_inv(orig, pre),
        0 <= k < pre.tasks@.len(),
        pre.tasks@[k].id == id,
        orig.queue@.contains(id),
        cur.queue@ == pre.queue@,
        cur.completed@ == pre.completed@,
        cur.tasks@ == pre.tasks@.update(k, cur.tasks@[k]),
        cur.tasks@.len() == pre.tasks@.len(),
        cur.tasks@[k].id == id,
        cur.tasks@[k].work.steps == pre.tasks@[k].work.steps,
        pre.tasks@[k].work.pos <= cur.tasks@[k].work.pos,
        task_wf(cur.tasks@[k]),
    ensures
        run_inv(orig, cur),
{
    assert(forall|j: int|
        0 <= j < cur.tasks@.len() ==> (#[trigger] cur.tasks@[j]).id == pre.tasks@[j].id);
    assert forall|j: int| 0 <= j < cur.tasks@.len() implies task_wf(#[trigger] cur.tasks@[j]) by {
        if j != k {
            assert(cur.tasks@[j] == pre.tasks@[j]);
        }
    }
    assert forall|j: int| 0 <= j < cur.tasks@.len() implies progressed_from(
        orig.tasks@,
        #[trigger] cur.tasks@[j],
    ) by {
        assert(progressed_from(orig.tasks@, pre.tasks@[j]));
        let w = choose|i: int|
            0 <= i < orig.tasks@.len() && (#[trigger] orig.tasks@[i]).id == pre.tasks@[j].id
                && orig.tasks@[i].work.steps == pre.tasks@[j].work.steps
                && orig.tasks@[i].work.pos <= pre.tasks@[j].work.pos;
        if j == k {
            assert(orig.tasks@[w].id == cur.tasks@[j].id);
            assert(orig.tasks@[w].work.pos <= cur.tasks@[j].work.pos);
        } else {
            assert(cur.tasks@[j] == pre.tasks@[j]);
        }
    }
    assert forall|q: int| 0 <= q < cur.queue@.len() implies registered(
        cur,
        #[trigger] cur.queue@[q],
    ) by {
        assert(registered(pre, pre.queue@[q]));
        let w = choose|i: int|
            0 <= i < pre.tasks@.len() && (#[trigger] pre.tasks@[i]).id == pre.queue@[q];
        assert(cur.tasks@[w].id == cur.queue@[q]);
    }
    assert forall|i: int|
        0 <= i < orig.tasks@.len() && !orig.queue@.contains(
            (#[trigger] orig.tasks@[i]).id,
        ) implies exists|j: int|
        0 <= j < cur.tasks@.len() && #[trigger] cur.tasks@[j] == orig.tasks@[i] by {
        let w = choose|j: int|
            0 <= j < pre.tasks@.len() && #[trigger] pre.tasks@[j] == orig.tasks@[i];
        if w == k {
            assert(orig.tasks@[i].id == id);
            assert(false);
        }
        assert(cur.tasks@[w] == orig.tasks@[i]);
    }
    assert forall|kk: int|
        orig.completed@.len() <= kk < cur.completed@.len() implies registered(
        orig,
        #[trigger] cur.completed@[kk],
    ) && !registered(cur, cur.completed@[kk]) by {
        assert(!registered(pre, pre.completed@[kk]));
        if registered(cur, cur.completed@[kk]) {
            let w = choose|x: int|
                0 <= x < cur.tasks@.len() && (#[trigger] cur.tasks@[x]).id == cur.completed@[kk];
            assert(pre.tasks@[w].id == cur.completed@[kk]);
            assert(false);
        }
    }
    assert forall|i: int|
        0 <= i < orig.tasks@.len() && !registered(cur, (#[trigger] orig.tasks@[i]).id) implies
        cur.completed@.skip(orig.completed@.len() as int).contains(orig.tasks@[i].id) by {
        if registered(pre, orig.tasks@[i].id) {
            let w = choose|x: int|
                0 <= x < pre.tasks@.len() && (#[trigger] pre.tasks@[x]).id == orig.tasks@[i].id;
            assert(cur.tasks@[w].id == orig.tasks@[i].id);
            assert(false);
        }
    }
}

/// Removing the completed task in slot `k` and logging its identifier keeps
/// the loop invariant.
proof fn lemma_after_remove(orig: Executor, pre: Executor, cur: Executor, k: int, id: TaskId)
    requires
        run_inv(orig, pre),
        0 <= k < pre.tasks@.len(),
        pre.tasks@[k].id == id,
        orig.queue@.contains(id),
        forall|q: int| 0 <= q < pre.queue@.len() ==> (#[trigger] pre.queue@[q]) != id,
        cur.queue@ == pre.queue@,
        cur.tasks@ == pre.tasks@.remove(k),
        cur.completed@ == pre.completed@.push(id),
    ensures
        run_inv(orig, cur),
{
    assert forall|a: int, b: int| 0 <= a < b < cur.tasks@.len() implies (
    #[trigger] cur.tasks@[a]).id != (#[trigger] cur.tasks@[b]).id by {
        let a0 = if a < k {
            a
        } else {
            a + 1
        };
        let b0 = if b < k {
            b
        } else {
            b + 1
        };
        assert(cur.tasks@[a] == pre.tasks@[a0]);
        assert(cur.tasks@[b] == pre.tasks@[b0]);
    }
    assert forall|j: int| 0 <= j < cur.tasks@.len() implies task_wf(#[trigger] cur.tasks@[j])
        && progressed_from(orig.tasks@, cur.tasks@[j]) by {
        let j0 = if j < k {
            j
        } else {
            j + 1
        };
        assert(cur.tasks@[j] == pre.tasks@[j0]);
        assert(task_wf(pre.tasks@[j0]));
        assert(progressed_from(orig.tasks@, pre.tasks@[j0]));
    }
    assert forall|q: int| 0 <= q < cur.queue@.len() implies registered(
        cur,
        #[trigger] cur.queue@[q],
    ) by {
        assert(registered(pre, pre.queue@[q]));
        let w = choose|x: int|
            0 <= x < pre.tasks@.len() && (#[trigger] pre.tasks@[x]).id == pre.queue@[q];
        assert(pre.queue@[q] != id);
        if w == k {
            assert(false);
        }
        let w2 = if w < k {
            w
        } else {
            w - 1
        };
        assert(cur.tasks@[w2] == pre.tasks@[w]);
    }
    assert forall|i: int|
        0 <= i < orig.tasks@.len() && !orig.queue@.contains(
            (#[trigger] orig.tasks@[i]).id,
        ) implies exists|j: int|
        0 <= j < cur.tasks@.len() && #[trigger] cur.tasks@[j] == orig.tasks@[i] by {
        let w = choose|j: int|
            0 <= j < pre.tasks@.len() && #[trigger] pre.tasks@[j] == orig.tasks@[i];
        if w == k {
            assert(orig.tasks@[i].id == id);
            assert(false);
        }
        let w2 = if w < k {
            w
        } else {
            w - 1
        };
        assert(cur.tasks@[w2] == pre.tasks@[w]);
    }
    assert(registered(orig, id)) by {
        assert(progressed_from(orig.tasks@, pre.tasks@[k]));
        let w = choose|i: int|
            0 <= i < orig.tasks@.len() && (#[trigger] orig.tasks@[i]).id == pre.tasks@[k].id
                && orig.tasks@[i].work.steps == pre.tasks@[k].work.steps
                && orig.tasks@[i].work.pos <= pre.tasks@[k].work.pos;
        assert(orig.tasks@[w].id == id);
    }
    assert(cur.completed@.take(orig.completed@.len() as int) =~= pre.completed@.take(
        orig.completed@.len() as int,
    ));
    assert(!registered(cur, id)) by {
        if registered(cur, id) {
            let w = choose|x: int| 0 <= x < cur.tasks@.len() && (#[trigger] cur.tasks@[x]).id == id;
            let w0 = if w < k {
                w
            } else {
                w + 1
            };
            assert(pre.tasks@[w0].id == id);
            assert(pre.tasks@[k].id == id);
            assert(w0 != k);
            assert(false);
        }
    }
    assert forall|kk: int|
        orig.completed@.len() <= kk < cur.completed@.len() implies registered(
        orig,
        #[trigger] cur.completed@[kk],
    ) && !registered(cur, cur.completed@[kk]) by {
        let cid = cur.completed@[kk];
        if kk < pre.completed@.len() {
            assert(cid == pre.completed@[kk]);
            assert(!registered(pre, cid));
            if registered(cur, cid) {
                let w = choose|x: int|
                    0 <= x < cur.tasks@.len() && (#[trigger] cur.tasks@[x]).id == cid;
                let w0 = if w < k {
                    w
                } else {
                    w + 1
                };
                assert(pre.tasks@[w0].id == cid);
                assert(false);
            }
        } else {
            assert(cid == id);
        }
    }
    assert forall|i: int|
        0 <= i < orig.tasks@.len() && !registered(cur, (#[trigger] orig.tasks@[i]).id) implies
        cur.completed@.skip(orig.completed@.len() as int).contains(orig.tasks@[i].id) by {
        let tid = orig.tasks@[i].id;
        let base = orig.completed@.len() as int;
        if registered(pre, tid) {
            let w = choose|x: int|
                0 <= x < pre.tasks@.len() && (#[trigger] pre.tasks@[x]).id == tid;
            if w == k {
                let last = cur.completed@.len() - 1;
                assert(cur.completed@[last] == id);
                assert(tid == id);
                assert(cur.completed@.skip(base)[last - base] == id);
            } else {
                let w2 = if w < k {
                    w
                } else {
                    w - 1
                };
                assert(cur.tasks@[w2].id == tid);
                assert(false);
            }
        } else {
            assert(pre.completed@.skip(base).contains(tid));
            let w = choose|x: int|
                0 <= x < pre.completed@.skip(base).len() && pre.completed@.skip(base)[x] == tid;
            assert(cur.completed@.skip(base)[w] == tid);
        }
    }
}

/// Re-queueing the just-polled, still-live task keeps the loop invariant.
proof fn lemma_after_requeue(orig: Executor, pre: Executor, cur: Executor, k: int, id: TaskId)
    requires
        run_inv(orig, pre),
        0 <= k < pre.tasks@.len(),
        pre.tasks@[k].id == id,
        orig.queue@.contains(id),
        forall|q: int| 0 <= q < pre.queue@.len() ==> (#[trigger] pre.queue@[q]) != id,
        cur.tasks@ == pre.tasks@,
        cur.completed@ == pre.completed@,
        cur.queue@ == pre.queue@.push(id),
    ensures
        run_inv(orig, cur),
{
    assert forall|q: int| 0 <= q < cur.queue@.len() implies registered(
        cur,
        #[trigger] cur.queue@[q],
    ) && orig.queue@.contains(cur.queue@[q]) by {
        if q < pre.queue@.len() {
            assert(cur.queue@[q] == pre.queue@[q]);
            assert(registered(pre, pre.queue@[q]));
            assert(orig.queue@.contains(pre.queue@[q]));
        } else {
            assert(cur.queue@[q] == id);
            assert(cur.tasks@[k].id == id);
        }
    }
    assert forall|a: int, b: int| 0 <= a < b < cur.queue@.len() implies (
    #[trigger] cur.queue@[a]) != (#[trigger] cur.queue@[b]) by {
        if b == cur.queue@.len() - 1 {
            assert(cur.queue@[a] == pre.queue@[a]);
            assert(pre.queue@[a] != id);
        } else {
            assert(cur.queue@[a] == pre.queue@[a]);
            assert(cur.queue@[b] == pre.queue@[b]);
        }
    }
}

/// Skipping an identifier that is no longer registered keeps the outcome
/// bookkeeping.
proof fn lemma_outcomes_skip(orig: Executor, pre: Executor, cur: Executor)
    requires
        run_outcomes(orig, pre),
        pre.queue@.len() > 0,
        forall|x: int| 0 <= x < pre.tasks@.len() ==> (#[trigger] pre.tasks@[x]).id != pre.queue@[0],
        cur.tasks@ == pre.tasks@,
        cur.queue@ == pre.queue@.drop_first(),
    ensures
        run_outcomes(orig, cur),
{
    let head = pre.queue@[0];
    assert forall|j: int|
        0 <= j < cur.tasks@.len() && orig.queue@.contains((#[trigger] cur.tasks@[j]).id) implies
        exists|i: int|
        {
            &&& 0 <= i < orig.tasks@.len()
            &&& (#[trigger] orig.tasks@[i]).id == cur.tasks@[j].id
            &&& orig.tasks@[i].work.steps == cur.tasks@[j].work.steps
            &&& orig.tasks@[i].work.pos <= cur.tasks@[j].work.pos
            &&& if cur.queue@.contains(cur.tasks@[j].id) {
                yields_from(orig.tasks@[i], cur.tasks@[j], cur.tasks@[j].work.pos as int)
            } else {
                &&& cur.tasks@[j].work.pos > orig.tasks@[i].work.pos
                &&& cur.tasks@[j].work.steps@[cur.tasks@[j].work.pos - 1] is Park
                &&& yields_from(orig.tasks@[i], cur.tasks@[j], cur.tasks@[j].work.pos - 1)
            }
        } by {
        let id = cur.tasks@[j].id;
        assert(pre.tasks@[j].id == id);
        assert(id != head);
        assert(pre.queue@.contains(id) == cur.queue@.contains(id)) by {
            if pre.queue@.contains(id) {
                let q = choose|q: int| 0 <= q < pre.queue@.len() && pre.queue@[q] == id;
                assert(q != 0);
                assert(cur.queue@[q - 1] == id);
            }
            if cur.queue@.contains(id) {
                let q = choose|q: int| 0 <= q < cur.queue@.len() && cur.queue@[q] == id;
                assert(pre.queue@[q + 1] == id);
            }
        }
    }
}

/// Removing the completed head task keeps the outcome bookkeeping: its
/// whole consumed script was yielding points, so no parking point remained.
proof fn lemma_outcomes_ready(orig: Executor, pre: Executor, cur: Executor, k: int)
    requires
        run_outcomes(orig, pre),
        executor_wf(orig),
        executor_wf(pre),
        pre.queue@.len() > 0,
        0 <= k < pre.tasks@.len(),
        pre.tasks@[k].id == pre.queue@[0],
        pre.tasks@[k].work.pos == pre.tasks@[k].work.steps@.len(),
        orig.queue@.contains(pre.queue@[0]),
        cur.tasks@ == pre.tasks@.remove(k),
        cur.queue@ == pre.queue@.drop_first(),
    ensures
        run_outcomes(orig, cur),
{
    let head = pre.queue@[0];
    assert forall|j: int|
        0 <= j < cur.tasks@.len() && orig.queue@.contains((#[trigger] cur.tasks@[j]).id) implies
        exists|i: int|
        {
            &&& 0 <= i < orig.tasks@.len()
            &&& (#[trigger] orig.tasks@[i]).id == cur.tasks@[j].id
            &&& orig.tasks@[i].work.steps == cur.tasks@[j].work.steps
            &&& orig.tasks@[i].work.pos <= cur.tasks@[j].work.pos
            &&& if cur.queue@.contains(cur.tasks@[j].id) {
                yields_from(orig.tasks@[i], cur.tasks@[j], cur.tasks@[j].work.pos as int)
            } else {
                &&& cur.tasks@[j].work.pos > orig.tasks@[i].work.pos
                &&& cur.tasks@[j].work.steps@[cur.tasks@[j].work.pos - 1] is Park
                &&& yields_from(orig.tasks@[i], cur.tasks@[j], cur.tasks@[j].work.pos - 1)
            }
        } by {
        let j0 = if j < k {
            j
        } else {
            j + 1
        };
        assert(cur.tasks@[j] == pre.tasks@[j0]);
        let id = cur.tasks@[j].id;
        assert(id != head);
        assert(pre.queue@.contains(id) == cur.queue@.contains(id)) by {
            if pre.queue@.contains(id) {
                let q = choose|q: int| 0 <= q < pre.queue@.len() && pre.queue@[q] == id;
                assert(q != 0);
                assert(cur.queue@[q - 1] == id);
            }
            if cur.queue@.contains(id) {
                let q = choose|q: int| 0 <= q < cur.queue@.len() && cur.queue@[q] == id;
                assert(pre.queue@[q + 1] == id);
            }
        }
    }
    assert forall|i: int|
        0 <= i < orig.tasks@.len() && orig.queue@.contains((#[trigger] orig.tasks@[i]).id)
            && !registered(cur, orig.tasks@[i].id) implies !has_park_after(orig.tasks@[i]) by {
        let tid = orig.tasks@[i].id;
        if registered(pre, tid) {
            let x = choose|x: int| 0 <= x < pre.tasks@.len() && (#[trigger] pre.tasks@[x]).id == tid;
            if x != k {
                let x2 = if x < k {
                    x
                } else {
                    x - 1
                };
                assert(cur.tasks@[x2].id == tid);
                assert(false);
            }
            // the completed head: its queued-arm bookkeeping shows only yields
            assert(tid == head);
            assert(orig.queue@.contains(pre.tasks@[k].id));
            let i2 = choose|i2: int|
                {
                    &&& 0 <= i2 < orig.tasks@.len()
                    &&& (#[trigger] orig.tasks@[i2]).id == pre.tasks@[k].id
                    &&& orig.tasks@[i2].work.steps == pre.tasks@[k].work.steps
                    &&& orig.tasks@[i2].work.pos <= pre.tasks@[k].work.pos
                    &&& if pre.queue@.contains(pre.tasks@[k].id) {
                        yields_from(orig.tasks@[i2], pre.tasks@[k], pre.tasks@[k].work.pos as int)
                    } else {
                        &&& pre.tasks@[k].work.pos > orig.tasks@[i2].work.pos
                        &&& pre.tasks@[k].work.steps@[pre.tasks@[k].work.pos - 1] is Park
                        &&& yields_from(orig.tasks@[i2], pre.tasks@[k], pre.tasks@[k].work.pos - 1)
                    }
                };
            assert(pre.queue@.contains(head)) by {
                assert(pre.queue@[0] == head);
            }
            assert(i2 == i);
            assert(yields_from(orig.tasks@[i], pre.tasks@[k], pre.tasks@[k].work.pos as int));
            if has_park_after(orig.tasks@[i]) {
                let k0 = choose|k0: int|
                    orig.tasks@[i].work.pos <= k0 < orig.tasks@[i].work.steps@.len() && (
                    #[trigger] orig.tasks@[i].work.steps@[k0]) is Park;
                assert(pre.tasks@[k].work.steps@[k0] is YieldNow);
                assert(false);
            }
        }
    }
}

/// Polling the head task to a suspension keeps the outcome bookkeeping:
/// parking leaves it just past its first parking point, yielding re-queues
/// it with one more yielding point consumed.
proof fn lemma_outcomes_pending(orig: Executor, pre: Executor, cur: Executor, k: int, parked: bool)
    requires
        run_outcomes(orig, pre),
        executor_wf(pre),
        pre.queue@.len() > 0,
        0 <= k < pre.tasks@.len(),
        pre.tasks@[k].id == pre.queue@[0],
        pre.tasks@[k].work.pos < pre.tasks@[k].work.steps@.len(),
        orig.queue@.contains(pre.queue@[0]),
        cur.tasks@ == pre.tasks@.update(k, cur.tasks@[k]),
        cur.tasks@.len() == pre.tasks@.len(),
        cur.tasks@[k].id == pre.tasks@[k].id,
        cur.tasks@[k].work.steps == pre.tasks@[k].work.steps,
        cur.tasks@[k].work.pos == pre.tasks@[k].work.pos + 1,
        parked ==> pre.tasks@[k].work.steps@[pre.tasks@[k].work.pos as int] is Park
            && cur.queue@ == pre.queue@.drop_first(),
        !parked ==> pre.tasks@[k].work.steps@[pre.tasks@[k].work.pos as int] is YieldNow
            && cur.queue@ == pre.queue@.drop_first().push(pre.queue@[0]),
    ensures
        run_outcomes(orig, cur),
{
    let head = pre.queue@[0];
    assert(pre.queue@.contains(head)) by {
        assert(pre.queue@[0] == head);
    }
    assert forall|j: int|
        0 <= j < cur.tasks@.len() && orig.queue@.contains((#[trigger] cur.tasks@[j]).id) implies
        exists|i: int|
        {
            &&& 0 <= i < orig.tasks@.len()
            &&& (#[trigger] orig.tasks@[i]).id == cur.tasks@[j].id
            &&& orig.tasks@[i].work.steps == cur.tasks@[j].work.steps
            &&& orig.tasks@[i].work.pos <= cur.tasks@[j].work.pos
            &&& if cur.queue@.contains(cur.tasks@[j].id) {
                yields_from(orig.tasks@[i], cur.tasks@[j], cur.tasks@[j].work.pos as int)
            } else {
                &&& cur.tasks@[j].work.pos > orig.tasks@[i].work.pos
                &&& cur.tasks@[j].work.steps@[cur.tasks@[j].work.pos - 1] is Park
                &&& yields_from(orig.tasks@[i], cur.tasks@[j], cur.tasks@[j].work.pos - 1)
            }
        } by {
        let id = cur.tasks@[j].id;
        if j == k {
            let i2 = choose|i2: int|
                {
                    &&& 0 <= i2 < orig.tasks@.len()
                    &&& (#[trigger] orig.tasks@[i2]).id == pre.tasks@[k].id
                    &&& orig.tasks@[i2].work.steps == pre.tasks@[k].work.steps
                    &&& orig.tasks@[i2].work.pos <= pre.tasks@[k].work.pos
                    &&& if pre.queue@.contains(pre.tasks@[k].id) {
                        yields_from(orig.tasks@[i2], pre.tasks@[k], pre.tasks@[k].work.pos as int)
                    } else {
                        &&& pre.tasks@[k].work.pos > orig.tasks@[i2].work.pos
                        &&& pre.tasks@[k].work.steps@[pre.tasks@[k].work.pos - 1] is Park
                        &&& yields_from(orig.tasks@[i2], pre.tasks@[k], pre.tasks@[k].work.pos - 1)
                    }
                };
            assert(yields_from(orig.tasks@[i2], pre.tasks@[k], pre.tasks@[k].work.pos as int));
            if parked {
                // the head leaves the queue and is not re-queued
                assert(!cur.queue@.contains(id)) by {
                    if cur.queue@.contains(id) {
                        let q = choose|q: int| 0 <= q < cur.queue@.len() && cur.queue@[q] == id;
                        assert(pre.queue@[q + 1] == id);
                        assert(pre.queue@[0] == id);
                        assert(false);
                    }
                }
                assert(cur.tasks@[j].work.steps@[cur.tasks@[j].work.pos - 1] is Park);
                assert(yields_from(orig.tasks@[i2], cur.tasks@[j], cur.tasks@[j].work.pos - 1));
            } else {
                assert(cur.queue@.contains(id)) by {
                    assert(cur.queue@[cur.queue@.len() - 1] == id);
                }
                assert(yields_from(orig.tasks@[i2], cur.tasks@[j], cur.tasks@[j].work.pos as int))
                    by {
                    assert(forall|k0: int|
                        orig.tasks@[i2].work.pos <= k0 < cur.tasks@[j].work.pos ==> (
                        #[trigger] cur.tasks@[j].work.steps@[k0]) is YieldNow);
                }
            }
        } else {
            assert(cur.tasks@[j] == pre.tasks@[j]);
            assert(id != head);
            assert(pre.queue@.contains(id) == cur.queue@.contains(id)) by {
                if pre.queue@.contains(id) {
                    let q = choose|q: int| 0 <= q < pre.queue@.len() && pre.queue@[q] == id;
                    assert(q != 0);
                    assert(cur.queue@[q - 1] == id);
                }
                if cur.queue@.contains(id) {
                    let q = choose|q: int| 0 <= q < cur.queue@.len() && cur.queue@[q] == id;
                    if parked {
                        assert(pre.queue@[q + 1] == id);
                    } else {
                        if q < cur.queue@.len() - 1 {
                            assert(pre.queue@[q + 1] == id);
                        } else {
                            assert(cur.queue@[q] == head);
                            assert(false);
                        }
                    }
                }
            }
        }
    }
    assert forall|i: int|
        0 <= i < orig.tasks@.len() && orig.queue@.contains((#[trigger] orig.tasks@[i]).id)
            && !registered(cur, orig.tasks@[i].id) implies !has_park_after(orig.tasks@[i]) by {
        let tid = orig.tasks@[i].id;
        if registered(pre, tid) {
            let x = choose|x: int| 0 <= x < pre.tasks@.len() && (#[trigger] pre.tasks@[x]).id == tid;
            assert(cur.tasks@[x].id == tid);
            assert(false);
        }
    }
}

/// What the run loop decides for every task that was queued when it began:
/// a task whose remaining script holds no parking point runs to completion
/// and leaves the registry; one with a parking point stops just past the
/// first of them, stays registered, and waits for an outside wake.
pub proof fn lemma_run_outcome(orig: Executor, fin: Executor, i: int)
    requires
        executor_wf(orig),
        run_inv(orig, fin),
        run_outcomes(orig, fin),
        fin.queue@.len() == 0,
        0 <= i < orig.tasks@.len(),
        orig.queue@.contains(orig.tasks@[i].id),
    ensures
        !has_park_after(orig.tasks@[i]) ==> !registered(fin, orig.tasks@[i].id),
        has_park_after(orig.tasks@[i]) ==> exists|j: int|
            {
                &&& 0 <= j < fin.tasks@.len()
                &&& (#[trigger] fin.tasks@[j]).id == orig.tasks@[i].id
                &&& fin.tasks@[j].work.steps == orig.tasks@[i].work.steps
                &&& fin.tasks@[j].work.pos > orig.tasks@[i].work.pos
                &&& fin.tasks@[j].work.steps@[fin.tasks@[j].work.pos - 1] is Park
                &&& yields_from(orig.tasks@[i], fin.tasks@[j], fin.tasks@[j].work.pos - 1)
            },
{
    let tid = orig.tasks@[i].id;
    if registered(fin, tid) {
        let j = choose|j: int| 0 <= j < fin.tasks@.len() && (#[trigger] fin.tasks@[j]).id == tid;
        assert(orig.queue@.contains(fin.tasks@[j].id));
        let i2 = choose|i2: int|
            {
                &&& 0 <= i2 < orig.tasks@.len()
                &&& (#[trigger] orig.tasks@[i2]).id == fin.tasks@[j].id
                &&& orig.tasks@[i2].work.steps == fin.tasks@[j].work.steps
                &&& orig.tasks@[i2].work.pos <= fin.tasks@[j].work.pos
                &&& if fin.queue@.contains(fin.tasks@[j].id) {
                    yields_from(orig.tasks@[i2], fin.tasks@[j], fin.tasks@[j].work.pos as int)
                } else {
                    &&& fin.tasks@[j].work.pos > orig.tasks@[i2].work.pos
                    &&& fin.tasks@[j].work.steps@[fin.tasks@[j].work.pos - 1] is Park
                    &&& yields_from(orig.tasks@[i2], fin.tasks@[j], fin.tasks@[j].work.pos - 1)
                }
            };
        assert(!fin.queue@.contains(fin.tasks@[j].id));
        assert(i2 == i);
        assert(task_wf(fin.tasks@[j]));
        assert(has_park_after(orig.tasks@[i])) by {
            let k0 = fin.tasks@[j].work.pos - 1;
            assert(orig.tasks@[i].work.steps@[k0] is Park);
        }
    }
}

impl Executor {
    /// An executor with no tasks, an empty queue and an empty log.
    pub fn new() -> (r: Executor)
        ensures
            executor_wf(r),
            r.tasks@.len() == 0,
            r.queue@.len() == 0,
            r.completed@.len() == 0,
    {
        Executor { tasks: Vec::new(), queue: Vec::new(), completed: Vec::new() }
    }

    /// The registry slot of `id`, if the task is still live.
    fn find_task_index(&self, id: TaskId) -> (r: Option<usize>)
        ensures
            match r {
                Some(k) => k < self.tasks@.len() && self.tasks@[k as int].id == id,
                None => forall|i: int|
                    0 <= i < self.tasks@.len() ==> (#[trigger] self.tasks@[i]).id != id,
            },
    {
        let mut i: usize = 0;
        while i < self.tasks.len()
            invariant
                i <= self.tasks@.len(),
                forall|j: int| 0 <= j < i ==> (#[trigger] self.tasks@[j]).id != id,
            decreases self.tasks@.len() - i,
        {
            if self.tasks[i].id == id {
                return Some(i);
            }
            i = i + 1;
        }
        None
    }

    /// Whether `id` already sits in the ready queue.
    fn queue_contains(&self, id: TaskId) -> (r: bool)
        ensures
            r == self.queue@.contains(id),
    {
        let mut i: usize = 0;
        while i < self.queue.len()
            invariant
                i <= self.queue@.len(),
                forall|j: int| 0 <= j < i ==> self.queue@[j] != id,
            decreases self.queue@.len() - i,
        {
            if self.queue[i] == id {
                return true;
            }
            i = i + 1;
        }
        false
    }

    /// Register a freshly created task and queue it as ready. A task's
    /// identifier is unique, so a spawned task is never already registered.
    pub fn spawn(&mut self, task: Task)
        requires
            executor_wf(*old(self)),
            task_wf(task),
            !registered(*old(self), task.id),
        ensures
            executor_wf(*final(self)),
            final(self).tasks@ == old(self).tasks@.push(task),
            final(self).queue@ == old(self).queue@.push(task.id),
            final(self).completed@ == old(self).completed@,
    {
        let ghost pre = *self;
        let id = task.id;
        self.tasks.push(task);
        self.queue.push(id);
        proof {
            assert(self.tasks@ == pre.tasks@.push(task));
            assert(self.queue@ == pre.queue@.push(task.id));
            assert forall|q: int| 0 <= q < self.queue@.len() implies registered(
                *self,
                #[trigger] self.queue@[q],
            ) by {
                if q < pre.queue@.len() {
                    assert(self.queue@[q] == pre.queue@[q]);
                    assert(registered(pre, pre.queue@[q]));
                    let w = choose|i: int|
                        0 <= i < pre.tasks@.len() && (#[trigger] pre.tasks@[i]).id == pre.queue@[q];
                    assert(self.tasks@[w] == pre.tasks@[w]);
                    assert(0 <= w < self.tasks@.len() && self.tasks@[w].id == self.queue@[q]);
                } else {
                    assert(self.queue@[q] == task.id);
                    assert(self.tasks@[pre.tasks@.len() as int].id == task.id);
                }
            }
            assert forall|a: int, b: int| 0 <= a < b < self.queue@.len() implies (
            #[trigger] self.queue@[a]) != (#[trigger] self.queue@[b]) by {
                if b == pre.queue@.len() {
                    assert(self.queue@[a] == pre.queue@[a]);
                    assert(registered(pre, pre.queue@[a]));
                    assert(self.queue@[b] == task.id);
                } else {
                    assert(self.queue@[a] == pre.queue@[a]);
                    assert(self.queue@[b] == pre.queue@[b]);
                }
            }
        }
    }

    /// Deliver a wake event for `id`: re-queue the task, but only if it is
    /// still registered and not already queued. A wake for an identifier no
    /// longer in the registry has no observable effect: no panic, no
    /// enqueue.
    pub fn wake_task(&mut self, id: TaskId)
        requires
            executor_wf(*old(self)),
        ensures
            executor_wf(*final(self)),
            final(self).tasks@ == old(self).tasks@,
            final(self).completed@ == old(self).completed@,
            registered(*old(self), id) && !old(self).queue@.contains(id) ==> final(self).queue@
                == old(self).queue@.push(id),
            !registered(*old(self), id) || old(self).queue@.contains(id) ==> *final(self) == *old(
                self,
            ),
    {
        let ghost pre = *self;
        let found = self.find_task_index(id);
        match found {
            Some(k) => {
                proof {
                    assert(self.tasks@[k as int].id == id);
                    assert(registered(pre, id));
                }
                if !self.queue_contains(id) {
                    self.queue.push(id);
                    proof {
                        assert(self.queue@ == pre.queue@.push(id));
                        assert(forall|a: int|
                            0 <= a < pre.queue@.len() ==> (#[trigger] pre.queue@[a]) != id);
                        assert forall|q: int| 0 <= q < self.queue@.len() implies registered(
                            *self,
                            #[trigger] self.queue@[q],
                        ) by {
                            if q < pre.queue@.len() {
                                assert(self.queue@[q] == pre.queue@[q]);
                                assert(registered(pre, pre.queue@[q]));
                            } else {
                                assert(self.queue@[q] == id);
                                assert(self.tasks@[k as int].id == id);
                            }
                        }
                        assert forall|a: int, b: int| 0 <= a < b < self.queue@.len() implies (
                        #[trigger] self.queue@[a]) != (#[trigger] self.queue@[b]) by {
                            if b == pre.queue@.len() {
                                assert(self.queue@[a] == pre.queue@[a]);
                            } else {
                                assert(self.queue@[a] == pre.queue@[a]);
                                assert(self.queue@[b] == pre.queue@[b]);
                            }
                        }
                    }
                }
            },
            None => {},
        }
    }

    /// Drain the ready queue: repeatedly pop the next identifier, skip it if
    /// it is no longer registered, and otherwise poll its task, removing it
    /// on completion (logging the identifier) and re-queueing it at once if
    /// it yielded; a task that parks is left registered, waiting for an
    /// outside wake. Returns with the queue empty; tasks not queued when the
    /// call began are untouched.
    pub fn run_ready_tasks(&mut self)
        requires
            executor_wf(*old(self)),
        ensures
            run_inv(*old(self), *final(self)),
            run_outcomes(*old(self), *final(self)),
            final(self).queue@.len() == 0,
    {
        proof {
            assert(run_inv(*old(self), *self)) by {
                assert(self.completed@.take(old(self).completed@.len() as int) =~= old(
                    self,
                ).completed@);
            }
            assert(run_outcomes(*old(self), *self)) by {
                assert forall|j: int|
                    0 <= j < self.tasks@.len() && old(self).queue@.contains(
                        (#[trigger] self.tasks@[j]).id,
                    ) implies exists|i: int|
                    {
                        &&& 0 <= i < old(self).tasks@.len()
                        &&& (#[trigger] old(self).tasks@[i]).id == self.tasks@[j].id
                        &&& old(self).tasks@[i].work.steps == self.tasks@[j].work.steps
                        &&& old(self).tasks@[i].work.pos <= self.tasks@[j].work.pos
                        &&& if self.queue@.contains(self.tasks@[j].id) {
                            yields_from(
                                old(self).tasks@[i],
                                self.tasks@[j],
                                self.tasks@[j].work.pos as int,
                            )
                        } else {
                            &&& self.tasks@[j].work.pos > old(self).tasks@[i].work.pos
                            &&& self.tasks@[j].work.steps@[self.tasks@[j].work.pos - 1] is Park
                            &&& yields_from(
                                old(self).tasks@[i],
                                self.tasks@[j],
                                self.tasks@[j].work.pos - 1,
                            )
                        }
                    } by {
                    assert(old(self).tasks@[j].id == self.tasks@[j].id);
                }
                assert forall|i: int| 0 <= i < old(self).tasks@.len() implies registered(
                    *self,
                    (#[trigger] old(self).tasks@[i]).id,
                ) by {
                    assert(self.tasks@[i].id == old(self).tasks@[i].id);
                }
            }
        }
        while self.queue.len() > 0
            invariant
                executor_wf(*old(self)),
                run_inv(*old(self), *self),
                run_outcomes(*old(self), *self),
            decreases total_steps(self.tasks@), self.queue@.len(),
        {
            self.run_step(Ghost(*old(self)));
        }
    }

    /// One turn of the run loop: pop the queue's head and resolve it.
    #[verifier::rlimit(100)]
    fn run_step(&mut self, Ghost(orig): Ghost<Executor>)
        requires
            executor_wf(orig),
            run_inv(orig, *old(self)),
            run_outcomes(orig, *old(self)),
            old(self).queue@.len() > 0,
        ensures
            run_inv(orig, *final(self)),
            run_outcomes(orig, *final(self)),
            total_steps(final(self).tasks@) <= total_steps(old(self).tasks@),
            total_steps(final(self).tasks@) == total_steps(old(self).tasks@)
                ==> final(self).queue@.len() < old(self).queue@.len(),
    {
        let ghost pre = *old(self);
        let id = self.queue.remove(0);
        proof {
            assert(self.queue@ =~= pre.queue@.drop_first());
            lemma_after_pop(orig, pre, *self);
        }
        let ghost popped = *self;
        let found = self.find_task_index(id);
        match found {
            None => {
                proof {
                    lemma_outcomes_skip(orig, pre, *self);
                }
            },
            Some(k) => {
                let mut cx = WakeContext::new();
                proof {
                    assert(task_wf(self.tasks@[k as int]));
                }
                let status = self.tasks[k].poll(&mut cx);
                let ghost polled = *self;
                proof {
                    assert(polled.tasks@ =~= popped.tasks@.update(
                        k as int,
                        polled.tasks@[k as int],
                    ));
                    lemma_after_poll(orig, popped, polled, k as int, id);
                    // termination bookkeeping: the poll never grows the measure
                    assert(popped.tasks@.update(k as int, polled.tasks@[k as int]) =~= popped
                        .tasks@.remove(k as int).insert(k as int, polled.tasks@[k as int]));
                    lemma_total_steps_remove(popped.tasks@, k as int);
                    lemma_total_steps_insert(
                        popped.tasks@.remove(k as int),
                        k as int,
                        polled.tasks@[k as int],
                    );
                }
                match status {
                    Poll::Ready => {
                        let t = self.tasks.remove(k);
                        self.completed.push(t.id);
                        proof {
                            lemma_after_remove(orig, polled, *self, k as int, id);
                            lemma_total_steps_remove(polled.tasks@, k as int);
                            assert(steps_left(polled.tasks@[k as int]) == 0);
                            assert(polled.tasks@ =~= popped.tasks@);
                            assert(pre.tasks@ == popped.tasks@);
                            assert(self.tasks@ == pre.tasks@.remove(k as int));
                            lemma_outcomes_ready(orig, pre, *self, k as int);
                        }
                    },
                    Poll::Pending => {
                        if cx.woken {
                            self.queue.push(id);
                            proof {
                                lemma_after_requeue(orig, polled, *self, k as int, id);
                                assert(steps_left(polled.tasks@[k as int]) < steps_left(
                                    popped.tasks@[k as int],
                                ));
                                assert(popped.tasks@[k as int].work.steps@[popped.tasks@[k as
                                    int].work.pos as int] is YieldNow);
                                lemma_outcomes_pending(orig, pre, *self, k as int, false);
                            }
                        } else {
                            proof {
                                assert(steps_left(polled.tasks@[k as int]) < steps_left(
                                    popped.tasks@[k as int],
                                ));
                                assert(popped.tasks@[k as int].work.steps@[popped.tasks@[k as
                                    int].work.pos as int] is Park);
                                lemma_outcomes_pending(orig, pre, *self, k as int, true);
                            }
                        }
                    },
                }
            },
        }
    }
}

} // verus!
