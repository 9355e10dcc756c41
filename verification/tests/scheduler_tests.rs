use flynn_kernel::preempt::{is_disabled, PreemptGuard, PreemptState};
use flynn_kernel::scheduler::{
    block_on_keyboard, notify_keyboard_input, on_timer_tick, preempt_if_pending, print_ps, sleep,
    spawn, start, yield_now, Scheduler, SwitchAction, TaskState, AGING_TICKS, QUANTUM_TICKS,
};

fn three_tasks() -> Scheduler {
    let mut s = Scheduler::new();
    assert_eq!(spawn(&mut s, 0), Some((1, 0)));
    assert_eq!(spawn(&mut s, 2), Some((2, 1)));
    assert_eq!(spawn(&mut s, 1), Some((3, 2)));
    s
}

fn queue(s: &Scheduler, level: usize) -> Vec<usize> {
    s.ready[level].iter().copied().collect()
}

#[test]
fn new_scheduler_is_empty() {
    let s = Scheduler::new();
    assert!(s.tasks.is_empty());
    assert_eq!(s.ready.len(), 4);
    assert!(s.ready.iter().all(|q| q.is_empty()));
    assert_eq!(s.current, None);
    assert_eq!(s.next_id, 1);
    assert!(!s.started);
    assert_eq!(s.quantum, QUANTUM_TICKS);
}

#[test]
fn spawn_assigns_ids_and_clamps_priority() {
    let mut s = Scheduler::new();
    assert_eq!(spawn(&mut s, 9), Some((1, 0)));
    assert_eq!(spawn(&mut s, 3), Some((2, 1)));
    assert_eq!(s.tasks[0].priority, 3);
    assert_eq!(s.tasks[0].state, TaskState::Ready);
    assert_eq!(s.tasks[0].wait_ticks, 0);
    assert_eq!(s.tasks[0].wake_at, None);
    assert_eq!(queue(&s, 3), vec![0, 1]);
    assert_eq!(s.next_id, 3);
}

#[test]
fn start_prefers_lowest_non_idle_level() {
    let mut s = three_tasks();
    assert_eq!(start(&mut s), SwitchAction::First { next: 2 });
    assert_eq!(s.current, Some(2));
    assert_eq!(s.tasks[2].state, TaskState::Running);
    assert!(s.started);
    assert!(queue(&s, 1).is_empty());
}

#[test]
fn start_with_only_idle_task_runs_it() {
    let mut s = Scheduler::new();
    spawn(&mut s, 0);
    assert_eq!(start(&mut s), SwitchAction::First { next: 0 });
}

#[test]
fn start_without_tasks_halts() {
    let mut s = Scheduler::new();
    assert_eq!(start(&mut s), SwitchAction::Halt);
    assert!(!s.started);
}

#[test]
fn yield_switches_to_highest_priority() {
    let mut s = three_tasks();
    start(&mut s);
    assert_eq!(yield_now(&mut s), SwitchAction::Switch { prev: 2, next: 1 });
    assert_eq!(s.tasks[2].state, TaskState::Ready);
    assert_eq!(queue(&s, 1), vec![2]);
    assert_eq!(s.tasks[1].state, TaskState::Running);
    assert_eq!(s.current, Some(1));
}

#[test]
fn yield_of_only_active_task_stays() {
    let mut s = Scheduler::new();
    spawn(&mut s, 1);
    start(&mut s);
    s.quantum = 1;
    assert_eq!(yield_now(&mut s), SwitchAction::Stay);
    assert_eq!(s.quantum, QUANTUM_TICKS);
    assert_eq!(s.tasks[0].state, TaskState::Running);
}

#[test]
fn yield_back_to_same_task_stays() {
    let mut s = Scheduler::new();
    spawn(&mut s, 3);
    spawn(&mut s, 0);
    start(&mut s);
    assert_eq!(s.current, Some(0));
    assert_eq!(yield_now(&mut s), SwitchAction::Stay);
    assert_eq!(s.tasks[0].state, TaskState::Running);
    assert_eq!(queue(&s, 0), vec![1]);
}

#[test]
fn sleep_blocks_until_deadline() {
    let mut s = three_tasks();
    start(&mut s);
    yield_now(&mut s);
    let mut p = PreemptState::new();
    assert_eq!(sleep(&mut s, 10, 5), SwitchAction::Switch { prev: 1, next: 2 });
    assert_eq!(s.tasks[1].state, TaskState::Blocked);
    assert_eq!(s.tasks[1].wake_at, Some(15));
    on_timer_tick(&mut s, &mut p, 14);
    assert_eq!(s.tasks[1].state, TaskState::Blocked);
    assert_eq!(s.quantum, 1);
    assert!(!p.pending);
    on_timer_tick(&mut s, &mut p, 15);
    assert_eq!(s.tasks[1].state, TaskState::Ready);
    assert_eq!(s.tasks[1].wake_at, None);
    assert_eq!(queue(&s, 2), vec![1]);
    assert!(p.pending);
    assert_eq!(s.quantum, QUANTUM_TICKS);
    assert_eq!(preempt_if_pending(&mut s, &mut p), SwitchAction::Switch { prev: 2, next: 1 });
    assert!(!p.pending);
}

#[test]
fn aging_moves_waiting_task_up_one_level() {
    let mut s = Scheduler::new();
    spawn(&mut s, 2);
    spawn(&mut s, 0);
    start(&mut s);
    assert_eq!(s.current, Some(0));
    let mut p = PreemptState::new();
    for now in 1..AGING_TICKS as u64 {
        on_timer_tick(&mut s, &mut p, now);
        assert_eq!(queue(&s, 0), vec![1]);
    }
    assert_eq!(s.tasks[1].wait_ticks, AGING_TICKS - 1);
    on_timer_tick(&mut s, &mut p, AGING_TICKS as u64);
    assert!(queue(&s, 0).is_empty());
    assert_eq!(queue(&s, 1), vec![1]);
    assert_eq!(s.tasks[1].wait_ticks, 1);
    assert_eq!(s.tasks[1].priority, 0);
}

#[test]
fn no_aging_or_quantum_while_preemption_disabled() {
    let mut s = Scheduler::new();
    spawn(&mut s, 2);
    spawn(&mut s, 0);
    start(&mut s);
    let mut p = PreemptState::new();
    let guard = PreemptGuard::new(&mut p);
    assert!(is_disabled(&p));
    on_timer_tick(&mut s, &mut p, 1);
    on_timer_tick(&mut s, &mut p, 2);
    assert_eq!(s.tasks[1].wait_ticks, 0);
    assert_eq!(s.quantum, QUANTUM_TICKS);
    assert!(!p.pending);
    assert_eq!(preempt_if_pending(&mut s, &mut p), SwitchAction::Stay);
    guard.release(&mut p);
    assert!(!is_disabled(&p));
}

#[test]
fn keyboard_block_and_wake() {
    let mut s = three_tasks();
    start(&mut s);
    assert_eq!(block_on_keyboard(&mut s, true), SwitchAction::Stay);
    assert_eq!(s.tasks[2].state, TaskState::Running);
    assert_eq!(block_on_keyboard(&mut s, false), SwitchAction::Switch { prev: 2, next: 1 });
    assert_eq!(s.keyboard_waiter, Some(2));
    assert_eq!(s.tasks[2].state, TaskState::Blocked);
    notify_keyboard_input(&mut s);
    assert_eq!(s.keyboard_waiter, None);
    assert_eq!(s.tasks[2].state, TaskState::Ready);
    assert_eq!(queue(&s, 1), vec![2]);
}

#[test]
fn finishing_task_hands_over() {
    let mut s = three_tasks();
    start(&mut s);
    assert_eq!(s.finish_current(), SwitchAction::Switch { prev: 2, next: 1 });
    assert_eq!(s.tasks[2].state, TaskState::Finished);
    assert_eq!(s.finish_current(), SwitchAction::Switch { prev: 1, next: 0 });
    assert_eq!(s.finish_current(), SwitchAction::Halt);
    assert_eq!(s.tasks[0].state, TaskState::Finished);
}

#[test]
fn active_count_counts_ready_and_running() {
    let mut s = three_tasks();
    assert_eq!(s.active_count(), 3);
    start(&mut s);
    sleep(&mut s, 0, 3);
    assert_eq!(s.active_count(), 2);
}

#[test]
fn task_table_text() {
    let mut s = Scheduler::new();
    spawn(&mut s, 1);
    spawn(&mut s, 0);
    start(&mut s);
    sleep(&mut s, 7, 5);
    let text = String::from_utf8(print_ps(&s)).unwrap();
    assert_eq!(
        text,
        "ID  PRIO  STATE     WAIT  WAKE_AT\n 1   1     Blocked   0   12\n 2   0     Running   0   -\n"
    );
}

#[test]
fn stack_slots_are_reused_after_finish() {
    let mut s = Scheduler::new();
    for i in 0..64u64 {
        assert_eq!(spawn(&mut s, 1), Some((i + 1, i)));
    }
    assert_eq!(s.free_stack_slot(), None);
    assert_eq!(spawn(&mut s, 1), None);
    assert_eq!(s.tasks.len(), 64);
    assert_eq!(start(&mut s), SwitchAction::First { next: 0 });
    assert_eq!(s.finish_current(), SwitchAction::Switch { prev: 0, next: 1 });
    assert_eq!(s.tasks[0].state, TaskState::Finished);
    assert_eq!(s.free_stack_slot(), Some(0));
    assert_eq!(spawn(&mut s, 2), Some((65, 0)));
    assert_eq!(s.tasks[64].stack_slot, 0);
    assert_eq!(s.free_stack_slot(), None);
}
