//! Priority scheduler for kernel threads: four ready queues with aging,
//! block and wake on sleep deadlines and on keyboard input, and a
//! time-slice quantum counted in timer ticks.
//!
//! The scheduler decides; it never switches stacks itself. Every operation
//! that may give the CPU to another task returns a [`SwitchAction`] that the
//! caller carries out (the context switch, or halting the CPU).
use vstd::prelude::*;
use vstd::string::StringSliceAdditionalSpecFns;
use std::collections::VecDeque;
use crate::preempt::{PreemptState, is_disabled, request_preempt, take_pending};
use crate::format::{decimal_spec, push_decimal, push_str};
use crate::layout::KERNEL_STACK_SLOTS;
use vstd::relations::injective_on;
use vstd::set_lib::{lemma_int_range, lemma_len_subset, lemma_map_size, set_int_range};

verus! {

broadcast use vstd::seq_lib::group_to_multiset_ensures;


/// Identifier of a task; the n-th spawned task gets id n (starting at 1).
pub type TaskId = u64;

/// Number of priority levels: 0 (idle) up to `MAX_PRIORITY - 1` (highest).
pub const MAX_PRIORITY: usize = 4;

/// Timer ticks in one time slice.
pub const QUANTUM_TICKS: u32 = 2;

/// Timer ticks a task waits in a ready queue before it moves up one level.
pub const AGING_TICKS: u32 = 15;

#[derive(Debug, Clone, Copy, PartialEq, Eq, Structural)]
pub enum TaskState {
    Ready,
    Running,
    Blocked,
    Finished,
}

/// Scheduling record of a task.
#[derive(Debug, Clone, Copy, PartialEq, Eq, Structural)]
pub struct Task {
    pub id: TaskId,
    pub state: TaskState,
    pub priority: u8,
    pub wait_ticks: u32,
    pub wake_at: Option<u64>,
    /// The kernel stack slot the task runs on.
    pub stack_slot: u64,
}

/// What the caller must do after a scheduling decision.
#[derive(Debug, Clone, Copy, PartialEq, Eq, Structural)]
pub enum SwitchAction {
    /// No task can run: halt the CPU for good.
    Halt,
    /// Keep running the current task.
    Stay,
    /// Save the context of task `prev` and resume task `next`.
    Switch { prev: usize, next: usize },
    /// Save the boot context and resume task `next` (the first switch).
    First { next: usize },
}

/// The scheduler: tasks by index, one ready queue of task indices per
/// priority level, the running task, the task blocked on the keyboard, the
/// next id to hand out, whether the first switch happened, and the ticks
/// left in the current time slice.
pub struct Scheduler {
    pub tasks: Vec<Task>,
    pub ready: Vec<VecDeque<usize>>,
    pub current: Option<usize>,
    pub keyboard_waiter: Option<usize>,
    pub next_id: TaskId,
    pub started: bool,
    pub quantum: u32,
}

/// The mathematical value of a scheduler.
pub struct SchedView {
    pub tasks: Seq<Task>,
    pub ready: Seq<Seq<usize>>,
    pub current: Option<usize>,
    pub keyboard_waiter: Option<usize>,
    pub next_id: TaskId,
    pub started: bool,
    pub quantum: u32,
}

impl View for Scheduler {
    type V = SchedView;

    open spec fn view(&self) -> SchedView {
        SchedView {
            tasks: self.tasks@,
            ready: self.ready@.map_values(|q: VecDeque<usize>| q@),
            current: self.current,
            keyboard_waiter: self.keyboard_waiter,
            next_id: self.next_id,
            started: self.started,
            quantum: self.quantum,
        }
    }
}

/// `priority` limited to the highest level.
pub open spec fn clamp_spec(priority: u8) -> u8 {
    if priority < 3 {
        priority
    } else {
        3
    }
}

/// How many times task `i` is queued, over all levels.
pub open spec fn qcount(v: SchedView, i: usize) -> nat {
    v.ready[0].to_multiset().count(i) + v.ready[1].to_multiset().count(i) + v.ready[2].to_multiset().count(
        i,
    ) + v.ready[3].to_multiset().count(i)
}

/// Task `i` is queued once if it is ready and not at all otherwise.
pub open spec fn count_ok(v: SchedView, i: usize) -> bool {
    qcount(v, i) == (if v.tasks[i as int].state == TaskState::Ready {
        1nat
    } else {
        0nat
    })
}

/// Task `i` has a valid priority and the id `i + 1`; if ready it has
/// waited less than the aging threshold; if running it is the current task.
pub open spec fn task_ok(v: SchedView, i: usize) -> bool {
    let t = v.tasks[i as int];
    &&& t.priority < 4
    &&& t.id == i + 1
    &&& t.state == TaskState::Ready ==> t.wait_ticks < AGING_TICKS
    &&& t.state == TaskState::Running ==> v.current == Some(i)
}

/// The scheduler's invariant: four queues of valid task indices in which
/// every ready task is queued exactly once and no other task is queued;
/// ready tasks have waited less than the aging threshold; priorities are
/// within range; the n-th task has id n + 1 and the next id follows the
/// last; only the current task may be running, and there is a current
/// task only once scheduling started; the quantum is within one slice.
pub open spec fn wf(v: SchedView) -> bool {
    &&& v.tasks.len() <= usize::MAX
    &&& v.ready.len() == 4
    &&& forall|l: int, j: int|
        0 <= l < 4 && 0 <= j < v.ready[l].len() ==> #[trigger] v.ready[l][j] < v.tasks.len()
    &&& forall|i: usize| i < v.tasks.len() ==> #[trigger] count_ok(v, i)
    &&& forall|i: usize| i < v.tasks.len() ==> #[trigger] task_ok(v, i)
    &&& v.next_id == v.tasks.len() + 1
    &&& v.current matches Some(c) ==> c < v.tasks.len() && v.started
    &&& v.keyboard_waiter matches Some(k) ==> k < v.tasks.len() && v.tasks[k as int].state
        == TaskState::Blocked && v.tasks[k as int].wake_at is None
    &&& 1 <= v.quantum <= QUANTUM_TICKS
}

/// No task is in the running state.
pub open spec fn none_running(v: SchedView) -> bool {
    forall|i: usize| i < v.tasks.len() ==> (#[trigger] v.tasks[i as int]).state != TaskState::Running
}

/// The current task, if any, is neither waiting in a ready queue nor
/// waiting for keyboard input: this holds whenever code of the current
/// task runs, which is where the operations that take the CPU away from it
/// are called.
pub open spec fn current_not_waiting(v: SchedView) -> bool {
    v.current matches Some(c) ==> v.tasks[c as int].state != TaskState::Ready
        && v.keyboard_waiter != Some(c)
}

/// Puts task `idx` at the back of the queue of its (clamped) priority as a
/// ready task that has not waited yet.
pub open spec fn enqueue_spec(v: SchedView, idx: usize) -> SchedView {
    let p = clamp_spec(v.tasks[idx as int].priority) as int;
    SchedView {
        tasks: v.tasks.update(
            idx as int,
            Task { wait_ticks: 0, state: TaskState::Ready, ..v.tasks[idx as int] },
        ),
        ready: v.ready.update(p, v.ready[p].push(idx)),
        ..v
    }
}

/// Takes the front of queue `l`.
pub open spec fn pop_level_spec(v: SchedView, l: int) -> (SchedView, Option<usize>) {
    (SchedView { ready: v.ready.update(l, v.ready[l].drop_first()), ..v }, Some(v.ready[l][0]))
}

/// Takes the front of the highest non-empty queue, if there is one.
pub open spec fn pop_highest_spec(v: SchedView) -> (SchedView, Option<usize>) {
    if v.ready[3].len() > 0 {
        pop_level_spec(v, 3)
    } else if v.ready[2].len() > 0 {
        pop_level_spec(v, 2)
    } else if v.ready[1].len() > 0 {
        pop_level_spec(v, 1)
    } else if v.ready[0].len() > 0 {
        pop_level_spec(v, 0)
    } else {
        (v, None)
    }
}

/// Before the first switch: takes the front of the lowest non-empty queue
/// above the idle level, and only then an idle task.
pub open spec fn pop_bootstrap_spec(v: SchedView) -> (SchedView, Option<usize>) {
    if v.ready[1].len() > 0 {
        pop_level_spec(v, 1)
    } else if v.ready[2].len() > 0 {
        pop_level_spec(v, 2)
    } else if v.ready[3].len() > 0 {
        pop_level_spec(v, 3)
    } else {
        pop_highest_spec(v)
    }
}

/// The queue discipline in force: highest level first once scheduling
/// started, the bootstrap order before.
pub open spec fn pop_next_spec(v: SchedView) -> (SchedView, Option<usize>) {
    if v.started {
        pop_highest_spec(v)
    } else {
        pop_bootstrap_spec(v)
    }
}

/// Picks the next task and says how to switch to it.
pub open spec fn schedule_next_spec(v: SchedView) -> (SchedView, SwitchAction) {
    let (w, next) = pop_next_spec(v);
    match next {
        None => (w, SwitchAction::Halt),
        Some(n) => {
            let w2 = SchedView {
                tasks: w.tasks.update(
                    n as int,
                    Task { state: TaskState::Running, wait_ticks: 0, ..w.tasks[n as int] },
                ),
                ..w
            };
            if w.current == Some(n) {
                (w2, SwitchAction::Stay)
            } else {
                match w.current {
                    Some(p) => (
                        SchedView { current: Some(n), ..w2 },
                        SwitchAction::Switch { prev: p, next: n },
                    ),
                    None => (
                        SchedView { current: Some(n), started: true, ..w2 },
                        SwitchAction::First { next: n },
                    ),
                }
            }
        },
    }
}

/// Registers a new task with the next id at the clamped priority, on
/// stack slot `slot`, ready to run.
pub open spec fn spawn_spec(v: SchedView, priority: u8, slot: u64) -> (SchedView, TaskId) {
    let t = Task {
        id: v.next_id,
        state: TaskState::Ready,
        priority: clamp_spec(priority),
        wait_ticks: 0,
        wake_at: None,
        stack_slot: slot,
    };
    let w = SchedView { tasks: v.tasks.push(t), next_id: (v.next_id + 1) as u64, ..v };
    (enqueue_spec(w, v.tasks.len() as usize), v.next_id)
}

/// Some task that has not finished runs on stack slot `slot`.
pub open spec fn slot_in_use(tasks: Seq<Task>, slot: u64) -> bool {
    exists|i: int|
        0 <= i < tasks.len() && (#[trigger] tasks[i]).state != TaskState::Finished
            && tasks[i].stack_slot == slot
}

/// The lowest stack slot from `s` on that no unfinished task uses, if any.
pub open spec fn free_slot_from(tasks: Seq<Task>, s: nat) -> Option<u64>
    decreases KERNEL_STACK_SLOTS - s,
{
    if s >= KERNEL_STACK_SLOTS {
        None
    } else if !slot_in_use(tasks, s as u64) {
        Some(s as u64)
    } else {
        free_slot_from(tasks, s + 1)
    }
}

/// Indices of the tasks that have not finished.
pub open spec fn unfinished(tasks: Seq<Task>) -> Set<int> {
    Set::new(|i: int| 0 <= i < tasks.len() && tasks[i].state != TaskState::Finished)
}

/// The number of tasks that are ready or running.
pub open spec fn active_count_spec(tasks: Seq<Task>) -> nat
    decreases tasks.len(),
{
    if tasks.len() == 0 {
        0
    } else {
        active_count_spec(tasks.drop_last()) + (if tasks.last().state == TaskState::Ready
            || tasks.last().state == TaskState::Running {
            1nat
        } else {
            0nat
        })
    }
}

/// Wakes task `idx` if it is blocked: its deadline is dropped, it stops
/// being the keyboard waiter, and it is queued as ready.
pub open spec fn wake_task_spec(v: SchedView, idx: usize) -> SchedView {
    if v.tasks[idx as int].state != TaskState::Blocked {
        v
    } else {
        enqueue_spec(
            SchedView {
                tasks: v.tasks.update(idx as int, Task { wake_at: None, ..v.tasks[idx as int] }),
                keyboard_waiter: if v.keyboard_waiter == Some(idx) {
                    None
                } else {
                    v.keyboard_waiter
                },
                ..v
            },
            idx,
        )
    }
}

/// A blocked task whose wake-up deadline has come.
pub open spec fn due(t: Task, now: u64) -> bool {
    &&& t.state == TaskState::Blocked
    &&& t.wake_at is Some
    &&& now >= t.wake_at->0
}

/// Wakes, in index order, each of the first `n` tasks whose deadline has
/// come.
pub open spec fn wake_sleepers_spec(v: SchedView, now: u64, n: nat) -> SchedView
    decreases n,
{
    if n == 0 {
        v
    } else {
        let w = wake_sleepers_spec(v, now, (n - 1) as nat);
        if due(w.tasks[n - 1], now) {
            wake_task_spec(w, (n - 1) as usize)
        } else {
            w
        }
    }
}

/// Wakes the task blocked on the keyboard, if there is one.
pub open spec fn wake_keyboard_waiter_spec(v: SchedView) -> SchedView {
    match v.keyboard_waiter {
        Some(k) => wake_task_spec(v, k),
        None => v,
    }
}

/// A queued task that reaches the aging threshold on this tick.
pub open spec fn promoted(v: SchedView, x: usize) -> bool {
    v.tasks[x as int].wait_ticks + 1 >= AGING_TICKS
}

pub open spec fn promoted_pred(v: SchedView) -> spec_fn(usize) -> bool {
    |x: usize| promoted(v, x)
}

pub open spec fn kept_pred(v: SchedView) -> spec_fn(usize) -> bool {
    |x: usize| !promoted(v, x)
}

/// A task's record after one tick in a ready queue.
pub open spec fn aged_task(t: Task) -> Task {
    Task {
        wait_ticks: if t.wait_ticks + 1 >= AGING_TICKS {
            0
        } else {
            (t.wait_ticks + 1) as u32
        },
        ..t
    }
}

/// One tick of aging on level `l`: every task queued there waits one tick
/// more; those that reach the threshold restart at zero and move, in queue
/// order, to the back of level `l + 1`.
pub open spec fn age_level_spec(v: SchedView, l: int) -> SchedView {
    let q = v.ready[l];
    SchedView {
        tasks: Seq::new(
            v.tasks.len(),
            |i: int|
                if q.contains(i as usize) {
                    aged_task(v.tasks[i])
                } else {
                    v.tasks[i]
                },
        ),
        ready: v.ready.update(l, q.filter(kept_pred(v))).update(
            l + 1,
            v.ready[l + 1] + q.filter(promoted_pred(v)),
        ),
        ..v
    }
}

/// One tick of aging, applied to levels 0, 1 and 2 in turn.
pub open spec fn age_spec(v: SchedView) -> SchedView {
    age_level_spec(age_level_spec(age_level_spec(v, 0), 1), 2)
}

/// Gives up the CPU: a finished current task just hands over; a task
/// that is the only active one keeps running with a fresh quantum; any
/// other current task goes to the back of its queue and the next task is
/// picked.
pub open spec fn yield_spec(v: SchedView) -> (SchedView, SwitchAction) {
    match v.current {
        None => (v, SwitchAction::Stay),
        Some(c) => if v.tasks[c as int].state == TaskState::Finished {
            schedule_next_spec(v)
        } else if active_count_spec(v.tasks) <= 1 {
            (SchedView { quantum: QUANTUM_TICKS, ..v }, SwitchAction::Stay)
        } else {
            schedule_next_spec(SchedView { quantum: QUANTUM_TICKS, ..enqueue_spec(v, c) })
        },
    }
}

/// Blocks the current task until tick `wake_at` and picks the next one.
pub open spec fn block_sleep_spec(v: SchedView, wake_at: u64) -> (SchedView, SwitchAction) {
    let c = v.current->0;
    schedule_next_spec(
        SchedView {
            tasks: v.tasks.update(
                c as int,
                Task { state: TaskState::Blocked, wake_at: Some(wake_at), ..v.tasks[c as int] },
            ),
            ..v
        },
    )
}

/// Unless a scancode is already waiting, blocks the current task until
/// keyboard input arrives and picks the next one.
pub open spec fn block_keyboard_spec(v: SchedView, key_pending: bool) -> (SchedView, SwitchAction) {
    if key_pending {
        (v, SwitchAction::Stay)
    } else {
        let c = v.current->0;
        schedule_next_spec(
            SchedView {
                keyboard_waiter: Some(c),
                tasks: v.tasks.update(
                    c as int,
                    Task { state: TaskState::Blocked, wake_at: None, ..v.tasks[c as int] },
                ),
                ..v
            },
        )
    }
}

/// Marks the current task finished (it stops being the keyboard waiter)
/// and picks the next one.
pub open spec fn finish_spec(v: SchedView) -> (SchedView, SwitchAction) {
    match v.current {
        Some(c) => schedule_next_spec(
            SchedView {
                tasks: v.tasks.update(
                    c as int,
                    Task { state: TaskState::Finished, ..v.tasks[c as int] },
                ),
                keyboard_waiter: if v.keyboard_waiter == Some(c) {
                    None
                } else {
                    v.keyboard_waiter
                },
                ..v
            },
        ),
        None => schedule_next_spec(v),
    }
}

/// One timer tick at time `now`: due sleepers wake; once started and with
/// preemption enabled, the queues age and, if more than one task is
/// active, the quantum counts down; when it runs out it is refilled and a
/// preemption is requested (the `bool`).
pub open spec fn timer_tick_spec(v: SchedView, now: u64, disabled: bool) -> (SchedView, bool) {
    let w = wake_sleepers_spec(v, now, v.tasks.len());
    let a = if v.started && !disabled {
        age_spec(w)
    } else {
        w
    };
    if !v.started || disabled || active_count_spec(a.tasks) <= 1 {
        (a, false)
    } else {
        let q = if a.quantum > 0 {
            a.quantum - 1
        } else {
            0
        };
        if q == 0 {
            (SchedView { quantum: QUANTUM_TICKS, ..a }, true)
        } else {
            (SchedView { quantum: q as u32, ..a }, false)
        }
    }
}

/// Column text of a task state in the task table.
pub open spec fn state_label_spec(s: TaskState) -> &'static str {
    match s {
        TaskState::Ready => "Ready   ",
        TaskState::Running => "Running ",
        TaskState::Blocked => "Blocked ",
        TaskState::Finished => "Finished",
    }
}

/// Header line of the task table.
pub open spec fn ps_header() -> Seq<u8> {
    "ID  PRIO  STATE     WAIT  WAKE_AT\n".spec_bytes()
}

/// One row of the task table: id, priority, state, ticks waited, and the
/// wake-up tick or `-`.
pub open spec fn ps_line(t: Task) -> Seq<u8> {
    " ".spec_bytes() + decimal_spec(t.id as nat) + "   ".spec_bytes() + decimal_spec(
        t.priority as nat,
    ) + "     ".spec_bytes() + state_label_spec(t.state).spec_bytes() + "  ".spec_bytes()
        + decimal_spec(t.wait_ticks as nat) + "   ".spec_bytes() + match t.wake_at {
        Some(w) => decimal_spec(w as nat),
        None => "-".spec_bytes(),
    } + "\n".spec_bytes()
}

/// The rows of the task table, in task order.
pub open spec fn ps_lines(tasks: Seq<Task>) -> Seq<u8>
    decreases tasks.len(),
{
    if tasks.len() == 0 {
        Seq::empty()
    } else {
        ps_lines(tasks.drop_last()) + ps_line(tasks.last())
    }
}

// ---------------------------------------------------------------------
// Proofs about the queue counts.
proof fn lemma_qcount_push(v: SchedView, w: SchedView, p: int, x: usize)
    requires
        v.ready.len() == 4,
        0 <= p < 4,
        w.ready == v.ready.update(p, v.ready[p].push(x)),
    ensures
        forall|i: usize| #[trigger] qcount(w, i) == qcount(v, i) + (if i == x { 1nat } else { 0nat }),
{
    assert forall|i: usize| #[trigger] qcount(w, i) == qcount(v, i) + (if i == x {
        1nat
    } else {
        0nat
    }) by {
        assert(w.ready[p].to_multiset() =~= v.ready[p].to_multiset().insert(x));
    }
}

proof fn lemma_qcount_drop_first(v: SchedView, w: SchedView, l: int)
    requires
        v.ready.len() == 4,
        0 <= l < 4,
        v.ready[l].len() > 0,
        w.ready == v.ready.update(l, v.ready[l].drop_first()),
    ensures
        forall|i: usize| #[trigger] qcount(v, i) == qcount(w, i) + (if i == v.ready[l][0] {
            1nat
        } else {
            0nat
        }),
{
    let q = v.ready[l];
    assert(q.drop_first() =~= q.remove(0));
    assert forall|i: usize| #[trigger] qcount(v, i) == qcount(w, i) + (if i == q[0] {
        1nat
    } else {
        0nat
    }) by {
        assert(w.ready[l].to_multiset() =~= q.to_multiset().remove(q[0]));
    }
}

/// A queued index belongs to a ready task (under the invariant).
proof fn lemma_queued_is_ready(v: SchedView, l: int, j: int)
    requires
        wf(v),
        0 <= l < 4,
        0 <= j < v.ready[l].len(),
    ensures
        v.tasks[v.ready[l][j] as int].state == TaskState::Ready,
        qcount(v, v.ready[l][j]) >= 1,
{
    let x = v.ready[l][j];
    assert(v.ready[l].contains(x));
    assert(v.ready[l].to_multiset().count(x) > 0);
    assert(x < v.tasks.len());
    assert(count_ok(v, x));
}

proof fn lemma_enqueue_wf(v: SchedView, idx: usize)
    requires
        wf(v),
        idx < v.tasks.len(),
        v.tasks[idx as int].state != TaskState::Ready,
        v.keyboard_waiter != Some(idx),
    ensures
        wf(enqueue_spec(v, idx)),
        (forall|i: usize|
            i < v.tasks.len() && i != idx ==> (#[trigger] v.tasks[i as int]).state
                != TaskState::Running) ==> none_running(enqueue_spec(v, idx)),
        current_not_waiting(v) && v.current != Some(idx) ==> current_not_waiting(
            enqueue_spec(v, idx),
        ),
{
    let w = enqueue_spec(v, idx);
    let p = clamp_spec(v.tasks[idx as int].priority) as int;
    lemma_qcount_push(v, w, p, idx);
    assert forall|l: int, j: int| 0 <= l < 4 && 0 <= j < w.ready[l].len() implies #[trigger] w.ready[l][j]
        < w.tasks.len() by {
        if l == p && j == v.ready[p].len() {
        } else {
            assert(w.ready[l][j] == v.ready[l][j]);
        }
    }
    assert forall|i: usize| i < w.tasks.len() implies #[trigger] count_ok(w, i) by {
        assert(count_ok(v, i));
    }
    assert forall|i: usize| i < w.tasks.len() implies #[trigger] task_ok(w, i) by {
        assert(task_ok(v, i));
    }
}

/// Taking the front of a non-empty queue removes one ready task from the
/// queues; the result is well-formed once that task is no longer ready.
proof fn lemma_pop_level(v: SchedView, l: int)
    requires
        wf(v),
        0 <= l < 4,
        v.ready[l].len() > 0,
    ensures
        ({
            let (w, n) = pop_level_spec(v, l);
            &&& n == Some(v.ready[l][0])
            &&& v.ready[l][0] < v.tasks.len()
            &&& v.tasks[v.ready[l][0] as int].state == TaskState::Ready
            &&& w.tasks == v.tasks
            &&& w.ready.len() == 4
            &&& forall|l2: int, j: int|
                0 <= l2 < 4 && 0 <= j < w.ready[l2].len() ==> #[trigger] w.ready[l2][j]
                    < w.tasks.len()
            &&& qcount(w, v.ready[l][0]) == 0
            &&& forall|i: usize| i != v.ready[l][0] ==> #[trigger] qcount(w, i) == qcount(v, i)
        }),
{
    let (w, n) = pop_level_spec(v, l);
    lemma_queued_is_ready(v, l, 0);
    lemma_qcount_drop_first(v, w, l);
    let x = v.ready[l][0];
    assert(count_ok(v, x));
    assert forall|l2: int, j: int| 0 <= l2 < 4 && 0 <= j < w.ready[l2].len() implies #[trigger] w.ready[
        l2][j] < w.tasks.len() by {
        if l2 == l {
            assert(w.ready[l2][j] == v.ready[l][j + 1]);
        } else {
            assert(w.ready[l2][j] == v.ready[l2][j]);
        }
    }
}

proof fn lemma_pop_highest(v: SchedView)
    requires
        wf(v),
    ensures
        ({
            let (w, n) = pop_highest_spec(v);
            &&& w.tasks == v.tasks
            &&& w.current == v.current
            &&& w.started == v.started
            &&& w.ready.len() == 4
            &&& forall|l2: int, j: int|
                0 <= l2 < 4 && 0 <= j < w.ready[l2].len() ==> #[trigger] w.ready[l2][j]
                    < w.tasks.len()
            &&& match n {
                None => w == v,
                Some(x) => {
                    &&& x < v.tasks.len()
                    &&& v.tasks[x as int].state == TaskState::Ready
                    &&& qcount(w, x) == 0
                    &&& forall|i: usize| i != x ==> #[trigger] qcount(w, i) == qcount(v, i)
                },
            }
        }),
{
    if v.ready[3].len() > 0 {
        lemma_pop_level(v, 3);
    } else if v.ready[2].len() > 0 {
        lemma_pop_level(v, 2);
    } else if v.ready[1].len() > 0 {
        lemma_pop_level(v, 1);
    } else if v.ready[0].len() > 0 {
        lemma_pop_level(v, 0);
    }
}

proof fn lemma_pop_bootstrap(v: SchedView)
    requires
        wf(v),
    ensures
        ({
            let (w, n) = pop_bootstrap_spec(v);
            &&& w.tasks == v.tasks
            &&& w.current == v.current
            &&& w.started == v.started
            &&& w.ready.len() == 4
            &&& forall|l2: int, j: int|
                0 <= l2 < 4 && 0 <= j < w.ready[l2].len() ==> #[trigger] w.ready[l2][j]
                    < w.tasks.len()
            &&& match n {
                None => w == v,
                Some(x) => {
                    &&& x < v.tasks.len()
                    &&& v.tasks[x as int].state == TaskState::Ready
                    &&& qcount(w, x) == 0
                    &&& forall|i: usize| i != x ==> #[trigger] qcount(w, i) == qcount(v, i)
                },
            }
        }),
{
    if v.ready[1].len() > 0 {
        lemma_pop_level(v, 1);
    } else if v.ready[2].len() > 0 {
        lemma_pop_level(v, 2);
    } else if v.ready[3].len() > 0 {
        lemma_pop_level(v, 3);
    } else {
        lemma_pop_highest(v);
    }
}

proof fn lemma_pop_next(v: SchedView)
    requires
        wf(v),
    ensures
        ({
            let (w, n) = pop_next_spec(v);
            &&& w.tasks == v.tasks
            &&& w.current == v.current
            &&& w.started == v.started
            &&& w.keyboard_waiter == v.keyboard_waiter
            &&& w.next_id == v.next_id
            &&& w.quantum == v.quantum
            &&& w.ready.len() == 4
            &&& forall|l2: int, j: int|
                0 <= l2 < 4 && 0 <= j < w.ready[l2].len() ==> #[trigger] w.ready[l2][j]
                    < w.tasks.len()
            &&& match n {
                None => w == v,
                Some(x) => {
                    &&& x < v.tasks.len()
                    &&& v.tasks[x as int].state == TaskState::Ready
                    &&& qcount(w, x) == 0
                    &&& forall|i: usize| i != x ==> #[trigger] qcount(w, i) == qcount(v, i)
                },
            }
        }),
{
    if v.started {
        lemma_pop_highest(v);
    } else {
        lemma_pop_bootstrap(v);
    }
}

/// Scheduling from a state where no task runs gives a well-formed state
/// in which exactly the chosen task runs and is current.
pub proof fn lemma_schedule_next_wf(v: SchedView)
    requires
        wf(v),
        none_running(v),
    ensures
        wf(schedule_next_spec(v).0),
        ({
            let (w, a) = schedule_next_spec(v);
            match a {
                SwitchAction::Halt => w == v,
                SwitchAction::Stay => v.current matches Some(c) && w.current == Some(c)
                    && w.tasks[c as int].state == TaskState::Running,
                SwitchAction::Switch { prev, next } => v.current == Some(prev) && w.current
                    == Some(next) && prev != next && w.tasks[next as int].state
                    == TaskState::Running,
                SwitchAction::First { next } => v.current.is_none() && w.current == Some(next)
                    && w.tasks[next as int].state == TaskState::Running,
            }
        }),
{
    lemma_pop_next(v);
    let (w, next) = pop_next_spec(v);
    match next {
        None => {},
        Some(n) => {
            let (r, a) = schedule_next_spec(v);
            assert forall|i: usize| i < r.tasks.len() implies #[trigger] count_ok(r, i) by {
                assert(count_ok(v, i));
                if i != n {
                    assert(qcount(w, i) == qcount(v, i));
                }
            }
            assert forall|i: usize| i < r.tasks.len() implies #[trigger] task_ok(r, i) by {
                assert(task_ok(v, i));
                assert(v.tasks[i as int].state != TaskState::Running);
            }
        },
    }
}


proof fn lemma_wake_task(v: SchedView, idx: usize)
    requires
        wf(v),
        idx < v.tasks.len(),
    ensures
        wf(wake_task_spec(v, idx)),
        wake_task_spec(v, idx).tasks.len() == v.tasks.len(),
        wake_task_spec(v, idx).current == v.current,
        wake_task_spec(v, idx).started == v.started,
        wake_task_spec(v, idx).quantum == v.quantum,
        none_running(v) ==> none_running(wake_task_spec(v, idx)),
{
    if v.tasks[idx as int].state == TaskState::Blocked {
        let u = SchedView {
            tasks: v.tasks.update(idx as int, Task { wake_at: None, ..v.tasks[idx as int] }),
            keyboard_waiter: if v.keyboard_waiter == Some(idx) {
                None
            } else {
                v.keyboard_waiter
            },
            ..v
        };
        assert(wf(u)) by {
            assert forall|i: usize| i < u.tasks.len() implies #[trigger] count_ok(u, i) by {
                assert(count_ok(v, i));
            }
            assert forall|i: usize| i < u.tasks.len() implies #[trigger] task_ok(u, i) by {
                assert(task_ok(v, i));
            }
        }
        lemma_enqueue_wf(u, idx);
        if none_running(v) {
            assert forall|i: usize| i < u.tasks.len() && i != idx implies (
            #[trigger] u.tasks[i as int]).state != TaskState::Running by {
                assert(v.tasks[i as int].state != TaskState::Running);
            }
        }
    }
}

proof fn lemma_wake_sleepers(v: SchedView, now: u64, n: nat)
    requires
        wf(v),
        n <= v.tasks.len(),
    ensures
        wf(wake_sleepers_spec(v, now, n)),
        wake_sleepers_spec(v, now, n).tasks.len() == v.tasks.len(),
        wake_sleepers_spec(v, now, n).current == v.current,
        wake_sleepers_spec(v, now, n).started == v.started,
        wake_sleepers_spec(v, now, n).quantum == v.quantum,
        none_running(v) ==> none_running(wake_sleepers_spec(v, now, n)),
    decreases n,
{
    if n > 0 {
        lemma_wake_sleepers(v, now, (n - 1) as nat);
        let w = wake_sleepers_spec(v, now, (n - 1) as nat);
        lemma_wake_task(w, (n - 1) as usize);
    }
}

/// Splitting a queue by a predicate and its negation keeps every count.
proof fn lemma_split_counts(v: SchedView, s: Seq<usize>, x: usize)
    ensures
        s.filter(kept_pred(v)).to_multiset().count(x) + s.filter(promoted_pred(v)).to_multiset().count(
            x,
        ) == s.to_multiset().count(x),
    decreases s.len(),
{
    if s.len() == 0 {
        reveal(Seq::filter);
        assert(s.filter(kept_pred(v)) =~= Seq::<usize>::empty());
        assert(s.filter(promoted_pred(v)) =~= Seq::<usize>::empty());
        assert(s.to_multiset() =~= vstd::multiset::Multiset::<usize>::empty());
    } else {
        let t = s.drop_last();
        let e = s.last();
        lemma_split_counts(v, t, x);
        assert(s =~= t.push(e));
        t.lemma_filter_push(e, kept_pred(v));
        t.lemma_filter_push(e, promoted_pred(v));
    }
}

/// A sequence in which no value is counted twice has no duplicates.
proof fn lemma_queue_no_duplicates(v: SchedView, l: int)
    requires
        wf(v),
        0 <= l < 4,
    ensures
        v.ready[l].no_duplicates(),
{
    let q = v.ready[l];
    assert forall|x: usize| q.to_multiset().contains(x) implies q.to_multiset().count(x) == 1 by {
        assert(q.contains(x));
        let j = choose|j: int| 0 <= j < q.len() && q[j] == x;
        lemma_queued_is_ready(v, l, j);
        assert(count_ok(v, x));
    }
    q.lemma_multiset_has_no_duplicates_conv();
}

proof fn lemma_age_level_wf(v: SchedView, l: int)
    requires
        wf(v),
        0 <= l < 3,
    ensures
        wf(age_level_spec(v, l)),
        age_level_spec(v, l).tasks.len() == v.tasks.len(),
        age_level_spec(v, l).current == v.current,
        age_level_spec(v, l).started == v.started,
        age_level_spec(v, l).quantum == v.quantum,
        forall|i: int|
            0 <= i < v.tasks.len() ==> (#[trigger] age_level_spec(v, l).tasks[i]).state
                == v.tasks[i].state,
{
    let w = age_level_spec(v, l);
    let q = v.ready[l];
    let kept = q.filter(kept_pred(v));
    let prom = q.filter(promoted_pred(v));
    assert forall|x: usize| #[trigger] qcount(w, x) == qcount(v, x) by {
        lemma_split_counts(v, q, x);
        vstd::seq_lib::lemma_multiset_commutative(v.ready[l + 1], prom);
        assert(w.ready[l] == kept);
        assert(w.ready[l + 1] == v.ready[l + 1] + prom);
    }
    assert forall|l2: int, j: int| 0 <= l2 < 4 && 0 <= j < w.ready[l2].len() implies #[trigger] w.ready[
        l2][j] < w.tasks.len() by {
        let y = w.ready[l2][j];
        assert(w.ready[l2].contains(y));
        if l2 == l {
            q.lemma_filter_contains_rev(kept_pred(v), y);
            let j2 = choose|j2: int| 0 <= j2 < q.len() && q[j2] == y;
        } else if l2 == l + 1 {
            if j >= v.ready[l + 1].len() {
                assert(prom.contains(y)) by {
                    assert(prom[j - v.ready[l + 1].len()] == y);
                }
                q.lemma_filter_contains_rev(promoted_pred(v), y);
                let j2 = choose|j2: int| 0 <= j2 < q.len() && q[j2] == y;
            } else {
                assert(y == v.ready[l + 1][j]);
            }
        } else {
            assert(y == v.ready[l2][j]);
        }
    }
    assert forall|i: usize| i < w.tasks.len() implies #[trigger] count_ok(w, i) by {
        assert(count_ok(v, i));
        assert(qcount(w, i) == qcount(v, i));
    }
    assert forall|i: usize| i < w.tasks.len() implies #[trigger] task_ok(w, i) by {
        assert(task_ok(v, i));
        if q.contains(i) {
            let j = choose|j: int| 0 <= j < q.len() && q[j] == i;
            lemma_queued_is_ready(v, l, j);
        }
    }
}

proof fn lemma_age_wf(v: SchedView)
    requires
        wf(v),
    ensures
        wf(age_spec(v)),
        age_spec(v).tasks.len() == v.tasks.len(),
        age_spec(v).current == v.current,
        age_spec(v).started == v.started,
        age_spec(v).quantum == v.quantum,
        forall|i: int|
            0 <= i < v.tasks.len() ==> (#[trigger] age_spec(v).tasks[i]).state == v.tasks[i].state,
{
    lemma_age_level_wf(v, 0);
    let v1 = age_level_spec(v, 0);
    lemma_age_level_wf(v1, 1);
    let v2 = age_level_spec(v1, 1);
    lemma_age_level_wf(v2, 2);
    assert forall|i: int| 0 <= i < v.tasks.len() implies (#[trigger] age_spec(v).tasks[i]).state
        == v.tasks[i].state by {
        assert(v1.tasks[i].state == v.tasks[i].state);
        assert(v2.tasks[i].state == v1.tasks[i].state);
    }
}

proof fn lemma_age_level_moves(u: SchedView, l: int)
    requires
        0 <= l < 3,
        u.ready.len() == 4,
        forall|j: int| 0 <= j < u.ready[l].len() ==> #[trigger] u.ready[l][j] < u.tasks.len(),
    ensures
        ({
            let w = age_level_spec(u, l);
            &&& w.tasks.len() == u.tasks.len()
            &&& w.ready.len() == 4
            &&& forall|i: int|
                0 <= i < u.tasks.len() ==> (#[trigger] w.tasks[i]) == Task {
                    wait_ticks: w.tasks[i].wait_ticks,
                    ..u.tasks[i]
                }
            &&& forall|x: usize| #[trigger] w.ready[l].contains(x) ==> u.ready[l].contains(x)
            &&& forall|x: usize|
                #[trigger] w.ready[l + 1].contains(x) ==> u.ready[l + 1].contains(x) || (
                u.ready[l].contains(x) && promoted(u, x))
            &&& forall|x: usize|
                u.ready[l].contains(x) && promoted(u, x) ==> (#[trigger] w.tasks[x as int]).wait_ticks
                    == 0
            &&& forall|l2: int| 0 <= l2 < 4 && l2 != l && l2 != l + 1 ==> #[trigger] w.ready[l2]
                == u.ready[l2]
            &&& w.ready[l + 1].take(u.ready[l + 1].len() as int) == u.ready[l + 1]
        }),
{
    let w = age_level_spec(u, l);
    let q = u.ready[l];
    let prom = q.filter(promoted_pred(u));
    assert forall|x: usize| #[trigger] w.ready[l].contains(x) implies u.ready[l].contains(x) by {
        q.lemma_filter_contains_rev(kept_pred(u), x);
    }
    assert forall|x: usize| #[trigger] w.ready[l + 1].contains(x) implies u.ready[l + 1].contains(x)
        || (u.ready[l].contains(x) && promoted(u, x)) by {
        let j = choose|j: int| 0 <= j < w.ready[l + 1].len() && #[trigger] w.ready[l + 1][j] == x;
        if j >= u.ready[l + 1].len() {
            assert(prom[j - u.ready[l + 1].len()] == x);
            assert(prom.contains(x));
            q.lemma_filter_contains_rev(promoted_pred(u), x);
        } else {
            assert(u.ready[l + 1][j] == x);
        }
    }
    assert forall|x: usize| u.ready[l].contains(x) && promoted(u, x) implies (
    #[trigger] w.tasks[x as int]).wait_ticks == 0 by {
        let j = choose|j: int| 0 <= j < q.len() && #[trigger] q[j] == x;
        assert(x < u.tasks.len());
    }
    assert(w.ready[l + 1].take(u.ready[l + 1].len() as int) =~= u.ready[l + 1]);
}

/// Aging only moves queued tasks up: it changes no task but for its
/// waiting time, keeps every task queued as often as before, moves no
/// task down and none up by more than one level, and only appends to the
/// highest level.
pub proof fn lemma_aging_moves_up_one_level(v: SchedView)
    requires
        wf(v),
    ensures
        ({
            let a = age_spec(v);
            &&& a.tasks.len() == v.tasks.len()
            &&& forall|i: int|
                0 <= i < v.tasks.len() ==> (#[trigger] a.tasks[i]) == Task {
                    wait_ticks: a.tasks[i].wait_ticks,
                    ..v.tasks[i]
                }
            &&& forall|x: usize| x < v.tasks.len() ==> #[trigger] qcount(a, x) == qcount(v, x)
            &&& forall|l: int, x: usize|
                0 <= l < 4 && #[trigger] a.ready[l].contains(x) ==> v.ready[l].contains(x) || (l
                    > 0 && v.ready[l - 1].contains(x))
            &&& a.ready[3].take(v.ready[3].len() as int) == v.ready[3]
        }),
{
    lemma_age_wf(v);
    let v1 = age_level_spec(v, 0);
    lemma_age_level_moves(v, 0);
    lemma_age_level_wf(v, 0);
    let v2 = age_level_spec(v1, 1);
    lemma_age_level_moves(v1, 1);
    lemma_age_level_wf(v1, 1);
    let v3 = age_level_spec(v2, 2);
    lemma_age_level_moves(v2, 2);
    let a = age_spec(v);
    assert forall|i: int| 0 <= i < v.tasks.len() implies (#[trigger] a.tasks[i]) == Task {
        wait_ticks: a.tasks[i].wait_ticks,
        ..v.tasks[i]
    } by {
        assert(v1.tasks[i] == Task { wait_ticks: v1.tasks[i].wait_ticks, ..v.tasks[i] });
        assert(v2.tasks[i] == Task { wait_ticks: v2.tasks[i].wait_ticks, ..v1.tasks[i] });
        assert(v3.tasks[i] == Task { wait_ticks: v3.tasks[i].wait_ticks, ..v2.tasks[i] });
    }
    assert forall|x: usize| x < v.tasks.len() implies #[trigger] qcount(a, x) == qcount(v, x) by {
        assert(count_ok(v, x));
        assert(count_ok(a, x));
        assert(a.tasks[x as int].state == v.tasks[x as int].state);
    }
    assert forall|l: int, x: usize|
        0 <= l < 4 && #[trigger] a.ready[l].contains(x) implies v.ready[l].contains(x) || (l > 0
        && v.ready[l - 1].contains(x)) by {
        if l == 0 {
            assert(v3.ready[0] == v2.ready[0]);
            assert(v2.ready[0] == v1.ready[0]);
        } else if l == 1 {
            assert(v3.ready[1] == v2.ready[1]);
            assert(v1.ready[1].contains(x));
        } else if l == 2 {
            assert(v2.ready[2].contains(x));
            assert(v1.ready[2] == v.ready[2]);
            if v1.ready[1].contains(x) && promoted(v1, x) {
                assert(v1.ready[1].contains(x));
                if !v.ready[1].contains(x) {
                    assert(v.ready[0].contains(x) && promoted(v, x));
                    assert(v1.tasks[x as int].wait_ticks == 0);
                }
            }
        } else {
            assert(v2.ready[3] == v1.ready[3]);
            assert(v1.ready[3] == v.ready[3]);
            if v2.ready[2].contains(x) && promoted(v2, x) {
                if !v1.ready[2].contains(x) {
                    assert(v1.ready[1].contains(x) && promoted(v1, x));
                    assert(v2.tasks[x as int].wait_ticks == 0);
                }
            }
        }
    }
    assert(v2.ready[3] == v.ready[3]);
}

/// Counting the active tasks of a prefix one task further.
proof fn lemma_active_count_step(tasks: Seq<Task>, i: int)
    requires
        0 <= i < tasks.len(),
    ensures
        active_count_spec(tasks.take(i + 1)) == active_count_spec(tasks.take(i)) + (if tasks[i].state
            == TaskState::Ready || tasks[i].state == TaskState::Running {
            1nat
        } else {
            0nat
        }),
{
    assert(tasks.take(i + 1).drop_last() =~= tasks.take(i));
}

/// After a state change that takes the current task off the CPU, no task
/// runs, and a well-formed state results.
proof fn lemma_set_current_state(v: SchedView, c: usize, t: Task, u: SchedView)
    requires
        wf(v),
        current_not_waiting(v),
        v.current == Some(c),
        t.state != TaskState::Ready,
        t.state != TaskState::Running,
        t.priority == v.tasks[c as int].priority,
        t.id == v.tasks[c as int].id,
        u.tasks == v.tasks.update(c as int, t),
        u.ready == v.ready,
        u.current == v.current,
        u.started == v.started,
        u.next_id == v.next_id,
        u.quantum == v.quantum,
        u.keyboard_waiter matches Some(k) ==> k < u.tasks.len() && u.tasks[k as int].state
            == TaskState::Blocked && u.tasks[k as int].wake_at is None,
    ensures
        wf(u),
        none_running(u),
{
    assert forall|i: usize| i < u.tasks.len() implies #[trigger] count_ok(u, i) by {
        assert(count_ok(v, i));
    }
    assert forall|i: usize| i < u.tasks.len() implies #[trigger] task_ok(u, i) by {
        assert(task_ok(v, i));
    }
    assert forall|i: usize| i < u.tasks.len() implies (#[trigger] u.tasks[i as int]).state
        != TaskState::Running by {
        assert(task_ok(v, i));
    }
}

/// Changing only the quantum keeps the invariant when the new quantum is
/// within one slice.
proof fn lemma_set_quantum(v: SchedView, q: u32)
    requires
        wf(v),
        1 <= q <= QUANTUM_TICKS,
    ensures
        wf(SchedView { quantum: q, ..v }),
{
    let u = SchedView { quantum: q, ..v };
    assert forall|i: usize| i < u.tasks.len() implies #[trigger] count_ok(u, i) by {
        assert(count_ok(v, i));
    }
    assert forall|i: usize| i < u.tasks.len() implies #[trigger] task_ok(u, i) by {
        assert(task_ok(v, i));
    }
}

proof fn lemma_yield(v: SchedView)
    requires
        wf(v),
        current_not_waiting(v),
    ensures
        wf(yield_spec(v).0),
{
    match v.current {
        None => {
            assert(yield_spec(v).0 == v);
        },
        Some(c) => {
            if v.tasks[c as int].state == TaskState::Finished {
                assert forall|i: usize| i < v.tasks.len() implies (#[trigger] v.tasks[
                    i as int]).state != TaskState::Running by {
                    assert(task_ok(v, i));
                }
                lemma_schedule_next_wf(v);
            } else if active_count_spec(v.tasks) <= 1 {
                lemma_set_quantum(v, QUANTUM_TICKS);
            } else {
                lemma_enqueue_wf(v, c);
                assert forall|i: usize| i < v.tasks.len() && i != c implies (#[trigger] v.tasks[
                    i as int]).state != TaskState::Running by {
                    assert(task_ok(v, i));
                }
                let e = enqueue_spec(v, c);
                let u = SchedView { quantum: QUANTUM_TICKS, ..e };
                lemma_set_quantum(e, QUANTUM_TICKS);
                lemma_schedule_next_wf(u);
            }
        },
    }
}


// ---------------------------------------------------------------------
// Laws of the scheduler.
proof fn lemma_wake_sleepers_task(v: SchedView, now: u64, n: nat, i: int)
    requires
        wf(v),
        n <= v.tasks.len(),
        0 <= i < v.tasks.len(),
    ensures
        i < n && due(v.tasks[i], now) ==> wake_sleepers_spec(v, now, n).tasks[i].state
            == TaskState::Ready,
        !(i < n && due(v.tasks[i], now)) ==> wake_sleepers_spec(v, now, n).tasks[i].state
            == v.tasks[i].state,
        i >= n ==> wake_sleepers_spec(v, now, n).tasks[i] == v.tasks[i],
    decreases n,
{
    if n > 0 {
        lemma_wake_sleepers_task(v, now, (n - 1) as nat, i);
        lemma_wake_sleepers(v, now, (n - 1) as nat);
        let w = wake_sleepers_spec(v, now, (n - 1) as nat);
        lemma_wake_sleepers_task(v, now, (n - 1) as nat, n - 1);
        assert(w.tasks[n - 1] == v.tasks[n - 1]);
        if i != n - 1 {
            assert(wake_sleepers_spec(v, now, n).tasks[i] == w.tasks[i]);
        }
    }
}

/// A timer tick wakes every sleeping task whose deadline has come, and
/// changes the state of no other task.
pub proof fn lemma_tick_wakes_exactly_due(v: SchedView, now: u64, disabled: bool, i: int)
    requires
        wf(v),
        0 <= i < v.tasks.len(),
    ensures
        due(v.tasks[i], now) ==> timer_tick_spec(v, now, disabled).0.tasks[i].state
            == TaskState::Ready,
        !due(v.tasks[i], now) ==> timer_tick_spec(v, now, disabled).0.tasks[i].state
            == v.tasks[i].state,
{
    let n = v.tasks.len();
    lemma_wake_sleepers(v, now, n);
    lemma_wake_sleepers_task(v, now, n, i);
    let w = wake_sleepers_spec(v, now, n);
    lemma_age_wf(w);
}

/// A sleeping task (blocked until a deadline) is woken by nothing but a
/// timer tick at or after its deadline: keyboard input leaves it as it
/// is, an earlier tick leaves it blocked, and a tick at or after the
/// deadline makes it ready.
pub proof fn lemma_sleeper_wakes_at_deadline(v: SchedView, i: int, now: u64, disabled: bool)
    requires
        wf(v),
        0 <= i < v.tasks.len(),
        v.tasks[i].state == TaskState::Blocked,
        v.tasks[i].wake_at is Some,
    ensures
        wake_keyboard_waiter_spec(v).tasks[i] == v.tasks[i],
        now < v.tasks[i].wake_at->0 ==> timer_tick_spec(v, now, disabled).0.tasks[i].state
            == TaskState::Blocked,
        now >= v.tasks[i].wake_at->0 ==> timer_tick_spec(v, now, disabled).0.tasks[i].state
            == TaskState::Ready,
{
    lemma_tick_wakes_exactly_due(v, now, disabled, i);
}

proof fn lemma_free_slot_from(tasks: Seq<Task>, s: nat)
    ensures
        free_slot_from(tasks, s) matches Some(t) ==> s <= t < KERNEL_STACK_SLOTS && !slot_in_use(
            tasks,
            t,
        ),
        free_slot_from(tasks, s) is None ==> forall|t: u64|
            s <= t < KERNEL_STACK_SLOTS ==> #[trigger] slot_in_use(tasks, t),
    decreases KERNEL_STACK_SLOTS - s,
{
    if s < KERNEL_STACK_SLOTS {
        lemma_free_slot_from(tasks, s + 1);
        if free_slot_from(tasks, s) is None {
            assert forall|t: u64| s <= t < KERNEL_STACK_SLOTS implies #[trigger] slot_in_use(
                tasks,
                t,
            ) by {
                if t == s {
                    assert(slot_in_use(tasks, s as u64));
                }
            }
        }
    }
}

/// A stack slot is free whenever fewer than `KERNEL_STACK_SLOTS` tasks are
/// unfinished, and the slot found is below `KERNEL_STACK_SLOTS` and used by
/// no unfinished task.
pub proof fn lemma_free_slot_exists(tasks: Seq<Task>)
    ensures
        free_slot_from(tasks, 0) matches Some(t) ==> t < KERNEL_STACK_SLOTS && !slot_in_use(
            tasks,
            t,
        ),
        unfinished(tasks).len() < KERNEL_STACK_SLOTS ==> free_slot_from(tasks, 0) is Some,
{
    lemma_free_slot_from(tasks, 0);
    let u = unfinished(tasks);
    assert(u.subset_of(set_int_range(0, tasks.len() as int)));
    lemma_int_range(0, tasks.len() as int);
    lemma_len_subset(u, set_int_range(0, tasks.len() as int));
    if free_slot_from(tasks, 0) is None {
        let r = set_int_range(0, KERNEL_STACK_SLOTS as int);
        let f = |t: int|
            choose|i: int|
                0 <= i < tasks.len() && (#[trigger] tasks[i]).state != TaskState::Finished
                    && tasks[i].stack_slot == t as u64;
        assert forall|t: int| #[trigger] r.contains(t) implies u.contains(f(t)) && tasks[f(
            t,
        )].stack_slot == t as u64 by {
            assert(slot_in_use(tasks, t as u64));
        }
        assert(injective_on(f, r)) by {
            assert forall|t1: int, t2: int|
                r.contains(t1) && r.contains(t2) && #[trigger] f(t1) == #[trigger] f(t2) implies t1
                == t2 by {
                assert(tasks[f(t1)].stack_slot == t1 as u64);
                assert(tasks[f(t2)].stack_slot == t2 as u64);
            }
        }
        lemma_int_range(0, KERNEL_STACK_SLOTS as int);
        lemma_map_size(r, r.map(f), f);
        assert(r.map(f).subset_of(u));
        lemma_len_subset(r.map(f), u);
    }
}

/// Spawning gives the new task the id one past the number of tasks, its
/// clamped priority (at most 3) and its slot, leaves every earlier task as
/// it was, and moves the id counter on; so from `Scheduler::new()` the
/// k-th spawn returns id k.
pub proof fn lemma_spawn_ids(v: SchedView, priority: u8, slot: u64)
    requires
        wf(v),
        v.next_id < u64::MAX,
    ensures
        ({
            let (w, id) = spawn_spec(v, priority, slot);
            let n = v.tasks.len() as int;
            &&& id == n + 1
            &&& w.tasks.len() == n + 1
            &&& w.tasks[n].id == id
            &&& w.tasks[n].priority <= 3
            &&& w.tasks[n].stack_slot == slot
            &&& w.next_id == id + 1
            &&& forall|i: int| 0 <= i < n ==> #[trigger] w.tasks[i] == v.tasks[i]
        }),
{
    let (w, id) = spawn_spec(v, priority, slot);
    let n = v.tasks.len() as int;
    let t = Task {
        id: v.next_id,
        state: TaskState::Ready,
        priority: clamp_spec(priority),
        wait_ticks: 0,
        wake_at: None,
        stack_slot: slot,
    };
    let u = SchedView { tasks: v.tasks.push(t), next_id: (v.next_id + 1) as u64, ..v };
    assert(w == enqueue_spec(u, n as usize));
    assert(u.tasks[n] == t);
    assert(w.tasks[n] == Task { wait_ticks: 0, state: TaskState::Ready, ..t });
    assert forall|i: int| 0 <= i < n implies #[trigger] w.tasks[i] == v.tasks[i] by {
        assert(u.tasks[i] == v.tasks[i]);
    }
}

/// The task table names each state by a label of its own: the labels of
/// two different states differ, every label is eight characters wide, and
/// each spells its state (`Ready`, `Running`, `Blocked`, `Finished`),
/// padded with spaces.
pub proof fn lemma_state_labels(s1: TaskState, s2: TaskState)
    ensures
        s1 != s2 ==> state_label_spec(s1)@ != state_label_spec(s2)@,
        state_label_spec(s1)@.len() == 8,
        state_label_spec(TaskState::Ready)@.take(5) == "Ready"@,
        state_label_spec(TaskState::Running)@.take(7) == "Running"@,
        state_label_spec(TaskState::Blocked)@.take(7) == "Blocked"@,
        state_label_spec(TaskState::Finished)@ == "Finished"@,
{
    reveal_strlit("Ready   ");
    reveal_strlit("Running ");
    reveal_strlit("Blocked ");
    reveal_strlit("Finished");
    reveal_strlit("Ready");
    reveal_strlit("Running");
    reveal_strlit("Blocked");
    assert(state_label_spec(TaskState::Ready)@.take(5) =~= "Ready"@);
    assert(state_label_spec(TaskState::Running)@.take(7) =~= "Running"@);
    assert(state_label_spec(TaskState::Blocked)@.take(7) =~= "Blocked"@);
    if s1 != s2 {
        let a = state_label_spec(s1)@;
        let b = state_label_spec(s2)@;
        assert(a[0] != b[0] || a[1] != b[1]);
    }
}

/// Before scheduling starts, the first task comes from the lowest
/// non-empty level among 1, 2 and 3, and from level 0 (idle) only when
/// those are all empty; it is the front of that queue, and starting makes
/// the first switch to it.
pub proof fn lemma_bootstrap_lowest_nonidle_first(v: SchedView, l: int)
    requires
        wf(v),
        !v.started,
        0 <= l < 4,
        v.ready[l].len() > 0,
        l >= 1 ==> forall|h: int| 1 <= h < l ==> (#[trigger] v.ready[h]).len() == 0,
        l == 0 ==> forall|h: int| 1 <= h < 4 ==> (#[trigger] v.ready[h]).len() == 0,
    ensures
        pop_next_spec(v).1 == Some(v.ready[l][0]),
        pop_next_spec(v).0.ready[l] == v.ready[l].drop_first(),
        schedule_next_spec(v).1 == (SwitchAction::First { next: v.ready[l][0] }),
{
    assert(v.current is None);
    if l == 0 {
        assert(v.ready[1].len() == 0 && v.ready[2].len() == 0 && v.ready[3].len() == 0);
    } else if l == 2 {
        assert(v.ready[1].len() == 0);
    } else if l == 3 {
        assert(v.ready[1].len() == 0 && v.ready[2].len() == 0);
    }
}

/// Round robin: when the running task yields (or is preempted) while at
/// least two tasks are active and a queue at its level or above holds a
/// ready task, it goes to the back of the queue of its level, still ready,
/// and the CPU switches to the front task of the highest non-empty queue.
pub proof fn lemma_yield_round_robin(v: SchedView, h: int)
    requires
        wf(v),
        v.current is Some,
        v.tasks[v.current->0 as int].state == TaskState::Running,
        active_count_spec(v.tasks) >= 2,
        clamp_spec(v.tasks[v.current->0 as int].priority) <= h < 4,
        v.ready[h].len() > 0,
        forall|k: int| h < k < 4 ==> (#[trigger] v.ready[k]).len() == 0,
    ensures
        ({
            let c = v.current->0;
            let p = clamp_spec(v.tasks[c as int].priority) as int;
            let n = v.ready[h][0];
            let (w, a) = yield_spec(v);
            &&& n != c
            &&& a == (SwitchAction::Switch { prev: c, next: n })
            &&& w.current == Some(n)
            &&& w.tasks[n as int].state == TaskState::Running
            &&& w.tasks[c as int].state == TaskState::Ready
            &&& w.ready[p].len() > 0
            &&& w.ready[p].last() == c
        }),
{
    let c = v.current->0;
    let p = clamp_spec(v.tasks[c as int].priority) as int;
    let n = v.ready[h][0];
    lemma_queued_is_ready(v, h, 0);
    assert(n != c);
    let e = enqueue_spec(v, c);
    let u = SchedView { quantum: QUANTUM_TICKS, ..e };
    assert(u.ready[h].len() > 0);
    assert(u.ready[h][0] == n);
    assert(forall|k: int| h < k < 4 ==> (#[trigger] u.ready[k]).len() == 0);
    assert(v.started);
    if h == 3 {
    } else if h == 2 {
        assert(u.ready[3].len() == 0);
    } else if h == 1 {
        assert(u.ready[3].len() == 0 && u.ready[2].len() == 0);
    } else {
        assert(u.ready[3].len() == 0 && u.ready[2].len() == 0 && u.ready[1].len() == 0);
    }
    assert(pop_next_spec(u) == pop_level_spec(u, h));
    let w0 = pop_level_spec(u, h).0;
    if h == p {
        assert(w0.ready[p] == v.ready[p].push(c).drop_first());
        assert(w0.ready[p].last() == c);
    } else {
        assert(w0.ready[p] == v.ready[p].push(c));
    }
}

/// Under the invariant a task is queued on one level at most.
proof fn lemma_queued_once(u: SchedView, l: int, x: usize)
    requires
        wf(u),
        0 <= l < 4,
        u.ready[l].contains(x),
    ensures
        forall|k: int| 0 <= k < 4 && k != l ==> !(#[trigger] u.ready[k]).contains(x),
        x < u.tasks.len(),
{
    let j = choose|j: int| 0 <= j < u.ready[l].len() && #[trigger] u.ready[l][j] == x;
    lemma_queued_is_ready(u, l, j);
    assert(count_ok(u, x));
    assert forall|k: int| 0 <= k < 4 && k != l implies !(#[trigger] u.ready[k]).contains(x) by {
        assert(u.ready[l].to_multiset().count(x) > 0);
        if u.ready[k].contains(x) {
            assert(u.ready[k].to_multiset().count(x) > 0);
        }
    }
}

/// Where one task is after one level of aging.
proof fn lemma_age_level_track(u: SchedView, l: int, x: usize)
    requires
        0 <= l < 3,
        u.ready.len() == 4,
        x < u.tasks.len(),
    ensures
        ({
            let w = age_level_spec(u, l);
            &&& u.ready[l].contains(x) ==> w.tasks[x as int] == aged_task(u.tasks[x as int])
            &&& !u.ready[l].contains(x) ==> w.tasks[x as int] == u.tasks[x as int]
            &&& u.ready[l].contains(x) && !promoted(u, x) ==> w.ready[l].contains(x)
            &&& u.ready[l].contains(x) && promoted(u, x) ==> w.ready[l + 1].contains(x)
                && !w.ready[l].contains(x)
            &&& u.ready[l + 1].contains(x) ==> w.ready[l + 1].contains(x)
            &&& !u.ready[l].contains(x) ==> !w.ready[l].contains(x)
            &&& !u.ready[l].contains(x) && !u.ready[l + 1].contains(x) ==> !w.ready[l
                + 1].contains(x)
            &&& forall|k: int| 0 <= k < 4 && k != l && k != l + 1 ==> #[trigger] w.ready[k]
                == u.ready[k]
        }),
{
    let w = age_level_spec(u, l);
    let q = u.ready[l];
    let kept = q.filter(kept_pred(u));
    let prom = q.filter(promoted_pred(u));
    if q.contains(x) {
        let j = choose|j: int| 0 <= j < q.len() && q[j] == x;
        if !promoted(u, x) {
            q.lemma_filter_contains(kept_pred(u), j);
        } else {
            q.lemma_filter_contains(promoted_pred(u), j);
            let k = choose|k: int| 0 <= k < prom.len() && prom[k] == x;
            assert(w.ready[l + 1][u.ready[l + 1].len() + k] == x);
            if kept.contains(x) {
                let m = choose|m: int| 0 <= m < kept.len() && kept[m] == x;
                q.lemma_filter_pred(kept_pred(u), m);
            }
        }
    } else {
        if kept.contains(x) {
            q.lemma_filter_contains_rev(kept_pred(u), x);
        }
        if w.ready[l + 1].contains(x) && !u.ready[l + 1].contains(x) {
            let m = choose|m: int| 0 <= m < w.ready[l + 1].len() && #[trigger] w.ready[l + 1][m] == x;
            if m < u.ready[l + 1].len() {
                assert(w.ready[l + 1][m] == u.ready[l + 1][m]);
            } else {
                assert(prom[m - u.ready[l + 1].len()] == x);
                q.lemma_filter_contains_rev(promoted_pred(u), x);
            }
        }
    }
    if u.ready[l + 1].contains(x) {
        let m = choose|m: int| 0 <= m < u.ready[l + 1].len() && #[trigger] u.ready[l + 1][m] == x;
        assert(w.ready[l + 1][m] == x);
    }
}

/// Aging reaches every level below the top: on an aging tick a task
/// queued on level 0, 1 or 2 either waits one tick more and stays on its
/// level, or, when that makes `AGING_TICKS`, leaves its level for the next
/// one up.
pub proof fn lemma_aging_every_lower_level(v: SchedView, l: int, x: usize)
    requires
        wf(v),
        0 <= l < 3,
        v.ready[l].contains(x),
    ensures
        ({
            let a = age_spec(v);
            &&& v.tasks[x as int].wait_ticks + 1 >= AGING_TICKS ==> a.ready[l + 1].contains(x)
                && !a.ready[l].contains(x)
            &&& v.tasks[x as int].wait_ticks + 1 < AGING_TICKS ==> a.ready[l].contains(x)
                && a.tasks[x as int].wait_ticks == v.tasks[x as int].wait_ticks + 1
        }),
{
    lemma_queued_once(v, l, x);
    lemma_age_level_wf(v, 0);
    let v1 = age_level_spec(v, 0);
    lemma_age_level_wf(v1, 1);
    let v2 = age_level_spec(v1, 1);
    let v3 = age_level_spec(v2, 2);
    lemma_age_level_track(v, 0, x);
    lemma_age_level_track(v1, 1, x);
    lemma_age_level_track(v2, 2, x);
    let up = v.tasks[x as int].wait_ticks + 1 >= AGING_TICKS;
    if l == 0 {
        if up {
            assert(v1.ready[1].contains(x) && !v1.ready[0].contains(x));
            assert(v1.tasks[x as int].wait_ticks == 0);
            assert(!promoted(v1, x));
            assert(v2.ready[1].contains(x));
            lemma_queued_once(v2, 1, x);
            assert(v3.ready[1] == v2.ready[1]);
            assert(v3.ready[0] == v2.ready[0]);
            assert(v2.ready[0] == v1.ready[0]);
        } else {
            assert(v1.ready[0].contains(x));
            lemma_queued_once(v1, 0, x);
            assert(v2.ready[0] == v1.ready[0]);
            lemma_queued_once(v2, 0, x);
            assert(v3.ready[0] == v2.ready[0]);
        }
    } else if l == 1 {
        assert(!v.ready[0].contains(x));
        assert(v1.ready[1].contains(x));
        assert(v1.tasks[x as int] == v.tasks[x as int]);
        if up {
            assert(v2.ready[2].contains(x) && !v2.ready[1].contains(x));
            assert(v2.tasks[x as int].wait_ticks == 0);
            assert(!promoted(v2, x));
            assert(v3.ready[1] == v2.ready[1]);
        } else {
            assert(!promoted(v1, x));
            assert(v2.ready[1].contains(x));
            lemma_queued_once(v2, 1, x);
            assert(v3.ready[1] == v2.ready[1]);
        }
    } else {
        assert(!v.ready[0].contains(x) && !v.ready[1].contains(x));
        assert(v1.ready[2] == v.ready[2]);
        assert(!v1.ready[1].contains(x));
        assert(v1.tasks[x as int] == v.tasks[x as int]);
        assert(v2.ready[2].contains(x));
        assert(v2.tasks[x as int] == v.tasks[x as int]);
    }
}

/// Keyboard input wakes the task that blocked on it: it becomes ready and
/// stops being the keyboard waiter.
pub proof fn lemma_keyboard_input_wakes_waiter(v: SchedView)
    requires
        wf(v),
        v.keyboard_waiter matches Some(k) && v.tasks[k as int].state == TaskState::Blocked,
    ensures
        ({
            let k = v.keyboard_waiter->0;
            let w = wake_keyboard_waiter_spec(v);
            &&& w.tasks[k as int].state == TaskState::Ready
            &&& w.keyboard_waiter is None
            &&& w.ready[clamp_spec(v.tasks[k as int].priority) as int].last() == k
        }),
{
}

/// A task that blocks on the keyboard while a scancode is waiting keeps
/// running; otherwise it stays blocked, with no deadline, as the keyboard
/// waiter, whatever task runs next.
pub proof fn lemma_block_keyboard(v: SchedView, key_pending: bool)
    requires
        wf(v),
        current_not_waiting(v),
        v.current is Some,
    ensures
        key_pending ==> block_keyboard_spec(v, key_pending) == (v, SwitchAction::Stay),
        !key_pending ==> ({
            let w = block_keyboard_spec(v, key_pending).0;
            let c = v.current->0;
            &&& w.tasks[c as int].state == TaskState::Blocked
            &&& w.tasks[c as int].wake_at is None
            &&& w.keyboard_waiter == Some(c)
        }),
{
    if !key_pending {
        let c = v.current->0;
        let t = Task { state: TaskState::Blocked, wake_at: None, ..v.tasks[c as int] };
        let u = SchedView { keyboard_waiter: Some(c), tasks: v.tasks.update(c as int, t), ..v };
        lemma_set_current_state(v, c, t, u);
        lemma_pop_next(u);
    }
}

/// Once scheduling started, the next task comes from the highest
/// non-empty level, and from the front of it.
pub proof fn lemma_highest_priority_first(v: SchedView, l: int)
    requires
        wf(v),
        v.started,
        0 <= l < 4,
        v.ready[l].len() > 0,
        forall|h: int| l < h < 4 ==> (#[trigger] v.ready[h]).len() == 0,
    ensures
        pop_next_spec(v).1 == Some(v.ready[l][0]),
        pop_next_spec(v).0.ready[l] == v.ready[l].drop_first(),
{
    assert(v.ready[3].len() == 0 || l == 3);
    assert(v.ready[2].len() == 0 || l >= 2);
    assert(v.ready[1].len() == 0 || l >= 1);
}

// ---------------------------------------------------------------------
// Executable scheduler.
/// `priority` limited to the highest level.
pub fn clamp_priority(priority: u8) -> (p: u8)
    ensures
        p == clamp_spec(priority),
{
    if priority < (MAX_PRIORITY - 1) as u8 {
        priority
    } else {
        (MAX_PRIORITY - 1) as u8
    }
}

/// Column text of a task state in the task table.
pub fn state_label(s: TaskState) -> (l: &'static str)
    ensures
        l == state_label_spec(s),
{
    match s {
        TaskState::Ready => "Ready   ",
        TaskState::Running => "Running ",
        TaskState::Blocked => "Blocked ",
        TaskState::Finished => "Finished",
    }
}

/// One row of the task table.
pub fn ps_row(t: Task) -> (out: Vec<u8>)
    ensures
        out@ == ps_line(t),
{
    let mut out: Vec<u8> = Vec::new();
    push_str(&mut out, " ");
    push_decimal(&mut out, t.id);
    let ghost a = out@;
    push_str(&mut out, "   ");
    push_decimal(&mut out, t.priority as u64);
    let ghost b = out@;
    push_str(&mut out, "     ");
    push_str(&mut out, state_label(t.state));
    push_str(&mut out, "  ");
    let ghost c = out@;
    push_decimal(&mut out, t.wait_ticks as u64);
    push_str(&mut out, "   ");
    let ghost d = out@;
    match t.wake_at {
        Some(w) => push_decimal(&mut out, w),
        None => push_str(&mut out, "-"),
    }
    let ghost e = out@;
    push_str(&mut out, "\n");
    proof {
        let wake = match t.wake_at {
            Some(w) => decimal_spec(w as nat),
            None => "-".spec_bytes(),
        };
        assert(a =~= " ".spec_bytes() + decimal_spec(t.id as nat));
        assert(b =~= a + "   ".spec_bytes() + decimal_spec(t.priority as nat));
        assert(c =~= b + "     ".spec_bytes() + state_label_spec(t.state).spec_bytes()
            + "  ".spec_bytes());
        assert(d =~= c + decimal_spec(t.wait_ticks as nat) + "   ".spec_bytes());
        assert(e =~= d + wake);
        assert(out@ =~= e + "\n".spec_bytes());
    }
    out
}

impl Scheduler {
    /// No tasks, four empty queues, nothing current, first id 1, not
    /// started, a full quantum.
    pub fn new() -> (s: Self)
        ensures
            wf(s@),
            s@.tasks.len() == 0,
            forall|l: int| 0 <= l < 4 ==> (#[trigger] s@.ready[l]).len() == 0,
            s@.current.is_none(),
            s@.keyboard_waiter.is_none(),
            s@.next_id == 1,
            !s@.started,
            s@.quantum == QUANTUM_TICKS,
    {
        let mut ready: Vec<VecDeque<usize>> = Vec::new();
        let mut l: usize = 0;
        while l < MAX_PRIORITY
            invariant
                l <= MAX_PRIORITY,
                ready@.len() == l,
                forall|k: int| 0 <= k < l ==> (#[trigger] ready@[k])@.len() == 0,
            decreases MAX_PRIORITY - l,
        {
            ready.push(VecDeque::new());
            l = l + 1;
        }
        let s = Scheduler {
            tasks: Vec::new(),
            ready,
            current: None,
            keyboard_waiter: None,
            next_id: 1,
            started: false,
            quantum: QUANTUM_TICKS,
        };
        assert forall|i: usize| #[trigger] qcount(s@, i) == 0 by {
            assert(s@.ready[0] =~= Seq::<usize>::empty());
            assert(s@.ready[1] =~= Seq::<usize>::empty());
            assert(s@.ready[2] =~= Seq::<usize>::empty());
            assert(s@.ready[3] =~= Seq::<usize>::empty());
        }
        s
    }

    fn enqueue_ready(&mut self, idx: usize)
        requires
            old(self)@.ready.len() == 4,
            idx < old(self)@.tasks.len(),
        ensures
            final(self)@ == enqueue_spec(old(self)@, idx),
    {
        let priority = clamp_priority(self.tasks[idx].priority);
        let mut t = self.tasks[idx];
        t.wait_ticks = 0;
        t.state = TaskState::Ready;
        self.tasks.set(idx, t);
        self.ready[priority as usize].push_back(idx);
        proof {
            let w = enqueue_spec(old(self)@, idx);
            assert(self@.ready =~= w.ready);
            assert(self@.tasks =~= w.tasks);
        }
    }

    fn pop_level(&mut self, level: usize) -> (r: Option<usize>)
        requires
            wf(old(self)@),
            level < 4,
        ensures
            old(self)@.ready[level as int].len() > 0 ==> (final(self)@, r) == pop_level_spec(
                old(self)@,
                level as int,
            ),
            old(self)@.ready[level as int].len() == 0 ==> final(self)@ == old(self)@ && r.is_none(),
    {
        // Every queued task is ready (see `wf`), so the first entry is taken.
        let ghost v = self@;
        match self.ready[level].pop_front() {
            Some(idx) => {
                proof {
                    assert(self@.ready =~= pop_level_spec(v, level as int).0.ready);
                }
                Some(idx)
            },
            None => {
                proof {
                    assert(self@.ready =~= v.ready);
                }
                None
            },
        }
    }

    /// Takes the front of the highest non-empty ready queue.
    pub fn pop_highest_ready(&mut self) -> (r: Option<usize>)
        requires
            wf(old(self)@),
        ensures
            (final(self)@, r) == pop_highest_spec(old(self)@),
    {
        let mut level: usize = MAX_PRIORITY;
        while level > 0
            invariant
                level <= 4,
                wf(self@),
                self@ == old(self)@,
                forall|l: int| level <= l < 4 ==> (#[trigger] self@.ready[l]).len() == 0,
            decreases level,
        {
            level = level - 1;
            let r = self.pop_level(level);
            if r.is_some() {
                return r;
            }
        }
        None
    }

    /// Before the first switch: takes from levels 1, 2, 3 in that order,
    /// and only then from the idle level.
    pub fn pop_bootstrap_task(&mut self) -> (r: Option<usize>)
        requires
            wf(old(self)@),
        ensures
            (final(self)@, r) == pop_bootstrap_spec(old(self)@),
    {
        let mut level: usize = 1;
        while level < MAX_PRIORITY
            invariant
                1 <= level <= 4,
                wf(self@),
                self@ == old(self)@,
                forall|l: int| 1 <= l < level ==> (#[trigger] self@.ready[l]).len() == 0,
            decreases MAX_PRIORITY - level,
        {
            let r = self.pop_level(level);
            if r.is_some() {
                return r;
            }
            level = level + 1;
        }
        self.pop_highest_ready()
    }

    /// Picks the next task to run (highest priority first once started)
    /// and marks it running.
    pub fn schedule_next(&mut self) -> (a: SwitchAction)
        requires
            wf(old(self)@),
            none_running(old(self)@),
        ensures
            (final(self)@, a) == schedule_next_spec(old(self)@),
            wf(final(self)@),
    {
        proof {
            lemma_schedule_next_wf(self@);
        }
        let ghost v = self@;
        let next = if self.started {
            self.pop_highest_ready()
        } else {
            self.pop_bootstrap_task()
        };
        let next_idx = match next {
            None => {
                return SwitchAction::Halt;
            },
            Some(n) => n,
        };
        proof {
            lemma_pop_next(v);
        }
        let prev = self.current;
        let mut t = self.tasks[next_idx];
        t.state = TaskState::Running;
        t.wait_ticks = 0;
        self.tasks.set(next_idx, t);
        if prev == Some(next_idx) {
            return SwitchAction::Stay;
        }
        self.current = Some(next_idx);
        match prev {
            Some(p) => SwitchAction::Switch { prev: p, next: next_idx },
            None => {
                self.started = true;
                SwitchAction::First { next: next_idx }
            },
        }
    }

    /// Registers a task with the next id at the clamped priority, ready to
    /// run, and returns its id.
    pub fn spawn(&mut self, priority: u8, slot: u64) -> (id: TaskId)
        requires
            wf(old(self)@),
            old(self)@.next_id < u64::MAX,
            old(self)@.tasks.len() < usize::MAX,
        ensures
            (final(self)@, id) == spawn_spec(old(self)@, priority, slot),
            wf(final(self)@),
            none_running(old(self)@) ==> none_running(final(self)@),
            current_not_waiting(old(self)@) ==> current_not_waiting(final(self)@),
    {
        let id = self.next_id;
        self.next_id = self.next_id + 1;
        let priority = clamp_priority(priority);
        let index = self.tasks.len();
        self.tasks.push(
            Task {
                id,
                state: TaskState::Ready,
                priority,
                wait_ticks: 0,
                wake_at: None,
                stack_slot: slot,
            },
        );
        let ghost w = self@;
        proof {
            let v = old(self)@;
            assert(w.ready == v.ready);
            assert(qcount(w, index) == 0) by {
                assert forall|l: int| 0 <= l < 4 implies !(#[trigger] w.ready[l]).contains(index) by {
                    if w.ready[l].contains(index) {
                        let j = choose|j: int| 0 <= j < w.ready[l].len() && w.ready[l][j] == index;
                        assert(v.ready[l][j] < v.tasks.len());
                    }
                }
            }
            // The new task, momentarily counted as not ready, satisfies the
            // enqueue precondition on a state that is otherwise well-formed.
            let w0 = SchedView {
                tasks: w.tasks.update(
                    index as int,
                    Task { state: TaskState::Blocked, ..w.tasks[index as int] },
                ),
                ..w
            };
            assert(wf(w0)) by {
                assert forall|l: int, j: int|
                    0 <= l < 4 && 0 <= j < w0.ready[l].len() implies #[trigger] w0.ready[l][j]
                    < w0.tasks.len() by {
                    assert(v.ready[l][j] < v.tasks.len());
                }
                assert forall|i: usize| i < w0.tasks.len() implies #[trigger] count_ok(w0, i) by {
                    if i < index {
                        assert(count_ok(v, i));
                        assert(w0.tasks[i as int] == v.tasks[i as int]);
                    }
                }
                assert forall|i: usize| i < w0.tasks.len() implies #[trigger] task_ok(w0, i) by {
                    if i < index {
                        assert(task_ok(v, i));
                        assert(w0.tasks[i as int] == v.tasks[i as int]);
                    }
                }
            }
            lemma_enqueue_wf(w0, index);
            assert(enqueue_spec(w0, index) == enqueue_spec(w, index)) by {
                assert(enqueue_spec(w0, index).tasks =~= enqueue_spec(w, index).tasks);
            }
            assert(none_running(v) ==> none_running(w0)) by {
                if none_running(v) {
                    assert forall|i: usize| i < w0.tasks.len() implies (#[trigger] w0.tasks[
                        i as int]).state != TaskState::Running by {
                        if i < index {
                            assert(w0.tasks[i as int] == v.tasks[i as int]);
                        }
                    }
                }
            }
            assert(current_not_waiting(v) ==> current_not_waiting(w0));
        }
        self.enqueue_ready(index);
        id
    }

    /// Whether the current task, if any, is neither queued nor waiting for
    /// the keyboard (the condition of the operations that take the CPU
    /// from it).
    pub fn current_is_not_waiting(&self) -> (r: bool)
        requires
            wf(self@),
        ensures
            r == current_not_waiting(self@),
    {
        match self.current {
            Some(c) => self.tasks[c].state != TaskState::Ready && self.keyboard_waiter != Some(c),
            None => true,
        }
    }

    /// Whether no task is marked running (the condition of `start`).
    pub fn no_task_running(&self) -> (r: bool)
        ensures
            r == none_running(self@),
    {
        let mut i: usize = 0;
        while i < self.tasks.len()
            invariant
                i <= self.tasks@.len(),
                forall|j: usize| j < i ==> (#[trigger] self@.tasks[j as int]).state
                    != TaskState::Running,
            decreases self.tasks@.len() - i,
        {
            if self.tasks[i].state == TaskState::Running {
                return false;
            }
            i = i + 1;
        }
        true
    }

    /// Whether another task can be registered: ids and indices left.
    pub fn can_spawn(&self) -> (r: bool)
        ensures
            r == (self@.next_id < u64::MAX && self@.tasks.len() < usize::MAX),
    {
        self.next_id < u64::MAX && self.tasks.len() < usize::MAX
    }

    /// Whether an unfinished task runs on stack slot `slot`.
    pub fn slot_used(&self, slot: u64) -> (r: bool)
        ensures
            r == slot_in_use(self@.tasks, slot),
    {
        let mut i: usize = 0;
        while i < self.tasks.len()
            invariant
                i <= self.tasks@.len(),
                forall|j: int|
                    0 <= j < i ==> !((#[trigger] self.tasks@[j]).state != TaskState::Finished
                        && self.tasks@[j].stack_slot == slot),
            decreases self.tasks@.len() - i,
        {
            let t = self.tasks[i];
            if t.state != TaskState::Finished && t.stack_slot == slot {
                assert(self.tasks@[i as int] == t);
                return true;
            }
            i = i + 1;
        }
        false
    }

    /// The lowest stack slot that no unfinished task uses, or `None` when
    /// all `KERNEL_STACK_SLOTS` are taken: a finished task's slot is free again.
    pub fn free_stack_slot(&self) -> (r: Option<u64>)
        ensures
            r == free_slot_from(self@.tasks, 0),
            r matches Some(s) ==> s < KERNEL_STACK_SLOTS && !slot_in_use(self@.tasks, s),
            r is None ==> forall|s: u64| s < KERNEL_STACK_SLOTS ==> slot_in_use(self@.tasks, s),
    {
        let ghost tasks = self@.tasks;
        let mut s: u64 = 0;
        while s < KERNEL_STACK_SLOTS
            invariant
                s <= KERNEL_STACK_SLOTS,
                free_slot_from(tasks, 0) == free_slot_from(tasks, s as nat),
                forall|t: u64| t < s ==> slot_in_use(tasks, t),
                tasks == self@.tasks,
            decreases KERNEL_STACK_SLOTS - s,
        {
            if !self.slot_used(s) {
                return Some(s);
            }
            s = s + 1;
        }
        None
    }

    /// Wakes task `idx` if it is blocked.
    pub fn wake_task(&mut self, idx: usize)
        requires
            wf(old(self)@),
            idx < old(self)@.tasks.len(),
        ensures
            final(self)@ == wake_task_spec(old(self)@, idx),
            wf(final(self)@),
    {
        proof {
            lemma_wake_task(self@, idx);
        }
        if self.tasks[idx].state != TaskState::Blocked {
            return;
        }
        let mut t = self.tasks[idx];
        t.wake_at = None;
        self.tasks.set(idx, t);
        match self.keyboard_waiter {
            Some(k) => {
                if k == idx {
                    self.keyboard_waiter = None;
                }
            },
            None => {},
        }
        self.enqueue_ready(idx);
    }

    /// Wakes every blocked task whose deadline is at or before `now`.
    pub fn wake_sleepers(&mut self, now: u64)
        requires
            wf(old(self)@),
        ensures
            final(self)@ == wake_sleepers_spec(old(self)@, now, old(self)@.tasks.len()),
            wf(final(self)@),
    {
        let mut idx: usize = 0;
        while idx < self.tasks.len()
            invariant
                idx <= self.tasks@.len(),
                self.tasks@.len() == old(self)@.tasks.len(),
                wf(old(self)@),
                self@ == wake_sleepers_spec(old(self)@, now, idx as nat),
                wf(self@),
            decreases self.tasks@.len() - idx,
        {
            proof {
                lemma_wake_sleepers(old(self)@, now, (idx + 1) as nat);
            }
            if self.tasks[idx].state == TaskState::Blocked {
                match self.tasks[idx].wake_at {
                    Some(wake_at) => {
                        if now >= wake_at {
                            self.wake_task(idx);
                        }
                    },
                    None => {},
                }
            }
            idx = idx + 1;
        }
    }

    /// Wakes the task blocked on the keyboard, if any.
    pub fn wake_keyboard_waiter(&mut self)
        requires
            wf(old(self)@),
        ensures
            final(self)@ == wake_keyboard_waiter_spec(old(self)@),
            wf(final(self)@),
    {
        match self.keyboard_waiter {
            Some(idx) => self.wake_task(idx),
            None => {},
        }
    }

    /// One tick of aging on level `level`.
    fn age_level(&mut self, level: usize)
        requires
            wf(old(self)@),
            level < 3,
        ensures
            final(self)@ == age_level_spec(old(self)@, level as int),
            wf(final(self)@),
    {
        let ghost v = self@;
        let ghost q = v.ready[level as int];
        let ghost kept = kept_pred(v);
        let ghost prom = promoted_pred(v);
        let n_tasks = self.tasks.len();
        proof {
            lemma_queue_no_duplicates(v, level as int);
            lemma_age_level_wf(v, level as int);
            assert(q.take(0) =~= Seq::<usize>::empty());
            reveal(Seq::filter);
            assert(q.take(0).filter(kept) =~= Seq::<usize>::empty());
            assert(q.take(0).filter(prom) =~= Seq::<usize>::empty());
            assert(self@.ready[level as int] =~= q.take(0).filter(kept) + q.skip(0));
            assert(self@.ready[level + 1] =~= v.ready[level + 1] + q.take(0).filter(prom));
        }
        let ghost mut k: int = 0;
        let mut i: usize = 0;
        while i < self.ready[level].len()
            invariant
                wf(v),
                level < 3,
                q == v.ready[level as int],
                kept == kept_pred(v),
                prom == promoted_pred(v),
                q.no_duplicates(),
                0 <= k <= q.len(),
                self.ready@.len() == 4,
                self@.ready[level as int] == q.take(k).filter(kept) + q.skip(k),
                i == q.take(k).filter(kept).len(),
                self@.ready[level + 1] == v.ready[level + 1] + q.take(k).filter(prom),
                forall|l2: int|
                    0 <= l2 < 4 && l2 != level && l2 != level + 1 ==> #[trigger] self@.ready[l2]
                        == v.ready[l2],
                self@.tasks.len() == v.tasks.len(),
                v.tasks.len() == n_tasks,
                forall|x: int|
                    0 <= x < v.tasks.len() ==> #[trigger] self@.tasks[x] == (if q.take(k).contains(
                        x as usize,
                    ) {
                        aged_task(v.tasks[x])
                    } else {
                        v.tasks[x]
                    }),
                self.current == v.current,
                self.keyboard_waiter == v.keyboard_waiter,
                self.next_id == v.next_id,
                self.started == v.started,
                self.quantum == v.quantum,
            decreases q.len() - k,
        {
            let ghost before = self@;
            proof {
                assert(k < q.len());
                assert(self@.ready[level as int][i as int] == q[k]);
                lemma_queued_is_ready(v, level as int, k);
                assert(!q.take(k).contains(q[k])) by {
                    if q.take(k).contains(q[k]) {
                        let j = choose|j: int| 0 <= j < k && q.take(k)[j] == q[k];
                        assert(q[j] == q[k]);
                    }
                }
                assert(task_ok(v, q[k]));
                assert(q.take(k + 1) =~= q.take(k).push(q[k]));
                q.take(k).lemma_filter_push(q[k], kept);
                q.take(k).lemma_filter_push(q[k], prom);
            }
            let idx = self.ready[level][i];
            let mut t = self.tasks[idx];
            t.wait_ticks = t.wait_ticks + 1;
            if t.wait_ticks >= AGING_TICKS {
                t.wait_ticks = 0;
                self.tasks.set(idx, t);
                let removed = self.ready[level].remove(i);
                match removed {
                    Some(x) => {
                        self.ready[level + 1].push_back(x);
                    },
                    None => {},
                }
                proof {
                    assert(self@.ready[level as int] =~= q.take(k + 1).filter(kept) + q.skip(k + 1));
                    assert(self@.ready[level + 1] =~= v.ready[level + 1] + q.take(k + 1).filter(
                        prom,
                    ));
                }
            } else {
                self.tasks.set(idx, t);
                i = i + 1;
                proof {
                    assert(self@.ready[level as int] =~= q.take(k + 1).filter(kept) + q.skip(k + 1));
                    assert(self@.ready[level + 1] =~= v.ready[level + 1] + q.take(k + 1).filter(
                        prom,
                    ));
                }
            }
            proof {
                k = k + 1;
                assert forall|x: int| 0 <= x < v.tasks.len() implies #[trigger] self@.tasks[x] == (
                if q.take(k).contains(x as usize) {
                    aged_task(v.tasks[x])
                } else {
                    v.tasks[x]
                }) by {
                    if x == idx {
                        assert(q.take(k)[k - 1] == idx);
                    } else {
                        assert(self@.tasks[x] == before.tasks[x]);
                        let cur_take = q.take(k);
                        let prev_take = q.take(k - 1);
                        let xu = x as usize;
                        assert(cur_take[k - 1] == idx);
                        assert(xu != idx);
                        assert(cur_take.contains(xu) == prev_take.contains(xu)) by {
                            if cur_take.contains(xu) {
                                let j = choose|j: int| 0 <= j < cur_take.len() && cur_take[j] == xu;
                                assert(j != k - 1);
                                assert(prev_take[j] == xu);
                            }
                            if prev_take.contains(xu) {
                                let j = choose|j: int| 0 <= j < prev_take.len() && prev_take[j] == xu;
                                assert(cur_take[j] == xu);
                            }
                        }
                    }
                }
                assert forall|l2: int|
                    0 <= l2 < 4 && l2 != level && l2 != level + 1 implies #[trigger] self@.ready[l2]
                    == v.ready[l2] by {
                    assert(self@.ready[l2] == before.ready[l2]);
                }
            }
        }
        proof {
            assert(k == q.len());
            assert(q.take(k) =~= q);
            let target = age_level_spec(v, level as int);
            assert(self@.tasks =~= target.tasks);
            assert(self@.ready =~= target.ready);
        }
    }

    /// One tick of aging on levels 0, 1 and 2, in that order.
    pub fn age_ready_queues(&mut self)
        requires
            wf(old(self)@),
        ensures
            final(self)@ == age_spec(old(self)@),
            wf(final(self)@),
    {
        let mut level: usize = 0;
        while level < MAX_PRIORITY - 1
            invariant
                level <= 3,
                wf(self@),
                wf(old(self)@),
                level == 0 ==> self@ == old(self)@,
                level == 1 ==> self@ == age_level_spec(old(self)@, 0),
                level == 2 ==> self@ == age_level_spec(age_level_spec(old(self)@, 0), 1),
                level == 3 ==> self@ == age_spec(old(self)@),
            decreases 3 - level,
        {
            self.age_level(level);
            level = level + 1;
        }
    }

    /// The number of tasks that are ready or running.
    pub fn active_count(&self) -> (n: usize)
        ensures
            n == active_count_spec(self@.tasks),
    {
        let mut n: usize = 0;
        let mut i: usize = 0;
        while i < self.tasks.len()
            invariant
                i <= self.tasks@.len(),
                n == active_count_spec(self.tasks@.take(i as int)),
                n <= i,
            decreases self.tasks@.len() - i,
        {
            proof {
                lemma_active_count_step(self.tasks@, i as int);
            }
            let st = self.tasks[i].state;
            if st == TaskState::Ready || st == TaskState::Running {
                n = n + 1;
            }
            i = i + 1;
        }
        proof {
            assert(self.tasks@.take(i as int) =~= self.tasks@);
        }
        n
    }

    /// Blocks the current task until tick `wake_at` and picks the next one.
    pub fn block_current_sleep(&mut self, wake_at: u64) -> (a: SwitchAction)
        requires
            wf(old(self)@),
            current_not_waiting(old(self)@),
            old(self)@.current.is_some(),
        ensures
            (final(self)@, a) == block_sleep_spec(old(self)@, wake_at),
            wf(final(self)@),
    {
        let idx = match self.current {
            Some(i) => i,
            None => {
                return SwitchAction::Stay;
            },
        };
        let mut t = self.tasks[idx];
        t.state = TaskState::Blocked;
        t.wake_at = Some(wake_at);
        self.tasks.set(idx, t);
        proof {
            lemma_set_current_state(old(self)@, idx, t, self@);
        }
        self.schedule_next()
    }

    /// Unless a scancode is already waiting, blocks the current task until
    /// keyboard input arrives and picks the next one.
    pub fn block_current_keyboard(&mut self, key_pending: bool) -> (a: SwitchAction)
        requires
            wf(old(self)@),
            current_not_waiting(old(self)@),
            !key_pending ==> old(self)@.current.is_some(),
        ensures
            (final(self)@, a) == block_keyboard_spec(old(self)@, key_pending),
            wf(final(self)@),
    {
        if key_pending {
            return SwitchAction::Stay;
        }
        let idx = match self.current {
            Some(i) => i,
            None => {
                return SwitchAction::Stay;
            },
        };
        self.keyboard_waiter = Some(idx);
        let mut t = self.tasks[idx];
        t.state = TaskState::Blocked;
        t.wake_at = None;
        self.tasks.set(idx, t);
        proof {
            lemma_set_current_state(old(self)@, idx, t, self@);
        }
        self.schedule_next()
    }

    /// Gives up the CPU (see `yield_spec`).
    pub fn yield_current(&mut self) -> (a: SwitchAction)
        requires
            wf(old(self)@),
            current_not_waiting(old(self)@),
        ensures
            (final(self)@, a) == yield_spec(old(self)@),
            wf(final(self)@),
    {
        proof {
            lemma_yield(self@);
        }
        let current_idx = match self.current {
            Some(idx) => idx,
            None => {
                return SwitchAction::Stay;
            },
        };
        if self.tasks[current_idx].state == TaskState::Finished {
            proof {
                assert forall|i: usize| i < self@.tasks.len() implies (#[trigger] self@.tasks[
                    i as int]).state != TaskState::Running by {
                    assert(task_ok(self@, i));
                }
            }
            return self.schedule_next();
        }
        if self.active_count() <= 1 {
            self.quantum = QUANTUM_TICKS;
            return SwitchAction::Stay;
        }
        self.enqueue_ready(current_idx);
        self.quantum = QUANTUM_TICKS;
        proof {
            let v = old(self)@;
            lemma_enqueue_wf(v, current_idx);
            assert forall|i: usize| i < v.tasks.len() && i != current_idx implies (
            #[trigger] v.tasks[i as int]).state != TaskState::Running by {
                assert(task_ok(v, i));
            }
            lemma_set_quantum(enqueue_spec(v, current_idx), QUANTUM_TICKS);
        }
        self.schedule_next()
    }

    /// Marks the current task finished and picks the next one.
    pub fn finish_current(&mut self) -> (a: SwitchAction)
        requires
            wf(old(self)@),
            current_not_waiting(old(self)@),
        ensures
            (final(self)@, a) == finish_spec(old(self)@),
            wf(final(self)@),
    {
        match self.current {
            Some(idx) => {
                let mut t = self.tasks[idx];
                t.state = TaskState::Finished;
                self.tasks.set(idx, t);
                match self.keyboard_waiter {
                    Some(k) => {
                        if k == idx {
                            self.keyboard_waiter = None;
                        }
                    },
                    None => {},
                }
                proof {
                    lemma_set_current_state(old(self)@, idx, t, self@);
                }
            },
            None => {
                proof {
                    assert forall|i: usize| i < self@.tasks.len() implies (#[trigger] self@.tasks[
                        i as int]).state != TaskState::Running by {
                        assert(task_ok(self@, i));
                    }
                }
            },
        }
        self.schedule_next()
    }

    /// One timer tick at time `now` (see `timer_tick_spec`); a preemption
    /// request goes to `preempt`.
    pub fn on_timer_tick(&mut self, now: u64, preempt: &mut PreemptState)
        requires
            wf(old(self)@),
        ensures
            final(self)@ == timer_tick_spec(old(self)@, now, old(preempt).depth > 0).0,
            *final(preempt) == (if timer_tick_spec(old(self)@, now, old(preempt).depth > 0).1 {
                PreemptState { pending: true, ..*old(preempt) }
            } else {
                *old(preempt)
            }),
            wf(final(self)@),
    {
        let ghost v = self@;
        proof {
            lemma_wake_sleepers(v, now, v.tasks.len());
            lemma_age_wf(wake_sleepers_spec(v, now, v.tasks.len()));
        }
        self.wake_sleepers(now);
        if self.started && !is_disabled(preempt) {
            self.age_ready_queues();
        }
        if !self.started || is_disabled(preempt) {
            return;
        }
        if self.active_count() <= 1 {
            return;
        }
        self.quantum = self.quantum.saturating_sub(1);
        if self.quantum == 0 {
            self.quantum = QUANTUM_TICKS;
            request_preempt(preempt);
        }
        proof {
            let a = age_spec(wake_sleepers_spec(v, now, v.tasks.len()));
            lemma_set_quantum(a, self.quantum);
        }
    }

    /// Starts scheduling: the first switch away from the boot context.
    pub fn start(&mut self) -> (a: SwitchAction)
        requires
            wf(old(self)@),
            none_running(old(self)@),
        ensures
            (final(self)@, a) == schedule_next_spec(old(self)@),
            wf(final(self)@),
    {
        self.schedule_next()
    }

    /// The task table: a header, then one row per task.
    pub fn print_ps(&self) -> (out: Vec<u8>)
        ensures
            out@ == ps_header() + ps_lines(self@.tasks),
    {
        let mut out: Vec<u8> = Vec::new();
        push_str(&mut out, "ID  PRIO  STATE     WAIT  WAKE_AT\n");
        let mut i: usize = 0;
        while i < self.tasks.len()
            invariant
                i <= self.tasks@.len(),
                out@ == ps_header() + ps_lines(self.tasks@.take(i as int)),
            decreases self.tasks@.len() - i,
        {
            let t = self.tasks[i];
            let line = ps_row(t);
            let ghost before = out@;
            crate::format::push_bytes(&mut out, line.as_slice());
            proof {
                assert(self.tasks@.take(i + 1).drop_last() =~= self.tasks@.take(i as int));
                assert(out@ =~= before + ps_line(t));
            }
            i = i + 1;
        }
        proof {
            assert(self.tasks@.take(i as int) =~= self.tasks@);
        }
        out
    }
}

// ---------------------------------------------------------------------
// The kernel's scheduling entry points, on the scheduler they act upon.
/// Registers a task at `priority` on the lowest free stack slot and
/// returns its id and slot (see `spawn_spec`); when every slot is taken,
/// returns `None` and changes nothing.
pub fn spawn(sched: &mut Scheduler, priority: u8) -> (r: Option<(TaskId, u64)>)
    requires
        wf(old(sched)@),
        old(sched)@.next_id < u64::MAX,
        old(sched)@.tasks.len() < usize::MAX,
    ensures
        wf(final(sched)@),
        r matches Some((id, slot)) ==> free_slot_from(old(sched)@.tasks, 0) == Some(slot) && (
        final(sched)@, id) == spawn_spec(old(sched)@, priority, slot),
        r is None ==> free_slot_from(old(sched)@.tasks, 0) is None && final(sched)@ == old(
            sched,
        )@,
        r matches Some((id, slot)) ==> slot < KERNEL_STACK_SLOTS && !slot_in_use(
            old(sched)@.tasks,
            slot,
        ) && id == old(sched)@.tasks.len() + 1,
        unfinished(old(sched)@.tasks).len() < KERNEL_STACK_SLOTS ==> r is Some,
{
    proof {
        lemma_free_slot_exists(sched@.tasks);
        lemma_spawn_ids(sched@, priority, 0);
    }
    match sched.free_stack_slot() {
        Some(slot) => {
            let id = sched.spawn(priority, slot);
            Some((id, slot))
        },
        None => None,
    }
}

/// The running task gives up the CPU.
pub fn yield_now(sched: &mut Scheduler) -> (a: SwitchAction)
    requires
        wf(old(sched)@),
        current_not_waiting(old(sched)@),
    ensures
        (final(sched)@, a) == yield_spec(old(sched)@),
        wf(final(sched)@),
{
    sched.yield_current()
}

/// Starts scheduling from the boot context.
pub fn start(sched: &mut Scheduler) -> (a: SwitchAction)
    requires
        wf(old(sched)@),
        none_running(old(sched)@),
    ensures
        (final(sched)@, a) == schedule_next_spec(old(sched)@),
        wf(final(sched)@),
{
    sched.start()
}

/// Blocks the running task for `ticks` timer ticks counted from `now`.
pub fn sleep(sched: &mut Scheduler, now: u64, ticks: u32) -> (a: SwitchAction)
    requires
        wf(old(sched)@),
        current_not_waiting(old(sched)@),
        old(sched)@.current.is_some(),
        now + ticks <= u64::MAX,
    ensures
        (final(sched)@, a) == block_sleep_spec(old(sched)@, (now + ticks) as u64),
        wf(final(sched)@),
{
    let wake_at = now + ticks as u64;
    sched.block_current_sleep(wake_at)
}

/// Blocks the running task until keyboard input arrives, unless a
/// scancode is already waiting.
pub fn block_on_keyboard(sched: &mut Scheduler, key_pending: bool) -> (a: SwitchAction)
    requires
        wf(old(sched)@),
        current_not_waiting(old(sched)@),
        !key_pending ==> old(sched)@.current.is_some(),
    ensures
        (final(sched)@, a) == block_keyboard_spec(old(sched)@, key_pending),
        wf(final(sched)@),
{
    sched.block_current_keyboard(key_pending)
}

/// Keyboard input arrived: wakes the task waiting for it.
pub fn notify_keyboard_input(sched: &mut Scheduler)
    requires
        wf(old(sched)@),
    ensures
        final(sched)@ == wake_keyboard_waiter_spec(old(sched)@),
        wf(final(sched)@),
{
    sched.wake_keyboard_waiter()
}

/// One timer tick at time `now`.
pub fn on_timer_tick(sched: &mut Scheduler, preempt: &mut PreemptState, now: u64)
    requires
        wf(old(sched)@),
    ensures
        final(sched)@ == timer_tick_spec(old(sched)@, now, old(preempt).depth > 0).0,
        *final(preempt) == (if timer_tick_spec(old(sched)@, now, old(preempt).depth > 0).1 {
            PreemptState { pending: true, ..*old(preempt) }
        } else {
            *old(preempt)
        }),
        wf(final(sched)@),
{
    sched.on_timer_tick(now, preempt)
}

/// At a safe point: if a preemption was requested (the request is
/// consumed either way) and preemption is enabled, yields.
pub fn preempt_if_pending(sched: &mut Scheduler, preempt: &mut PreemptState) -> (a: SwitchAction)
    requires
        wf(old(sched)@),
        current_not_waiting(old(sched)@),
    ensures
        *final(preempt) == (PreemptState { pending: false, ..*old(preempt) }),
        old(preempt).pending && old(preempt).depth == 0 ==> (final(sched)@, a) == yield_spec(
            old(sched)@,
        ),
        !(old(preempt).pending && old(preempt).depth == 0) ==> final(sched)@ == old(sched)@ && a
            == SwitchAction::Stay,
        wf(final(sched)@),
{
    if take_pending(preempt) && !is_disabled(preempt) {
        yield_now(sched)
    } else {
        SwitchAction::Stay
    }
}

/// The task table as text.
pub fn print_ps(sched: &Scheduler) -> (out: Vec<u8>)
    ensures
        out@ == ps_header() + ps_lines(sched@.tasks),
{
    sched.print_ps()
}

} // verus!
