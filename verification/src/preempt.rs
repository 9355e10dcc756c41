//! Preemption bookkeeping: the nesting depth of regions that must not be
//! preempted, the pending-preemption flag that the timer sets, a count of
//! preemptions taken in the timer interrupt, and the index of the task the
//! interrupt handler treats as active.
use vstd::prelude::*;

verus! {

/// Value of the active-task slot that means "no task".
pub const NO_ACTIVE_TASK: usize = usize::MAX;

/// The preemption state that the kernel keeps in global atomics.
#[derive(Debug, Clone, Copy, PartialEq, Eq, Structural)]
pub struct PreemptState {
    pub depth: u32,
    pub pending: bool,
    pub timer_preempts: u64,
    pub active: usize,
}

impl PreemptState {
    /// Preemption enabled, nothing pending, no preemption counted, no active task.
    pub fn new() -> (s: Self)
        ensures
            s.depth == 0,
            !s.pending,
            s.timer_preempts == 0,
            s.active == NO_ACTIVE_TASK,
    {
        PreemptState { depth: 0, pending: false, timer_preempts: 0, active: NO_ACTIVE_TASK }
    }
}

/// Held while a region must not be preempted. Guards nest; each one is
/// given back with `release`.
#[derive(Debug)]
pub struct PreemptGuard {
    _private: (),
}

impl PreemptGuard {
    /// Enters a non-preemptible region (the depth wraps as an atomic
    /// `fetch_add` does).
    pub fn new(state: &mut PreemptState) -> (g: Self)
        ensures
            final(state).depth as int == (old(state).depth as int + 1) % 0x1_0000_0000,
            final(state).pending == old(state).pending,
            final(state).timer_preempts == old(state).timer_preempts,
            final(state).active == old(state).active,
    {
        state.depth = state.depth.wrapping_add(1);
        PreemptGuard { _private: () }
    }

    /// Leaves the region that this guard entered (the depth wraps as an
    /// atomic `fetch_sub` does).
    pub fn release(self, state: &mut PreemptState)
        ensures
            final(state).depth as int == (old(state).depth as int - 1 + 0x1_0000_0000) % 0x1_0000_0000,
            final(state).pending == old(state).pending,
            final(state).timer_preempts == old(state).timer_preempts,
            final(state).active == old(state).active,
    {
        state.depth = state.depth.wrapping_sub(1);
    }
}

/// Preemption is disabled while at least one guard is held.
pub fn is_disabled(state: &PreemptState) -> (b: bool)
    ensures
        b == (state.depth > 0),
{
    state.depth > 0
}

/// Asks for a preemption at the next safe point.
pub fn request_preempt(state: &mut PreemptState)
    ensures
        *final(state) == (PreemptState { pending: true, ..*old(state) }),
{
    state.pending = true;
}

/// Reads and clears the pending flag.
pub fn take_pending(state: &mut PreemptState) -> (was_pending: bool)
    ensures
        was_pending == old(state).pending,
        *final(state) == (PreemptState { pending: false, ..*old(state) }),
{
    let p = state.pending;
    state.pending = false;
    p
}

/// Counts one preemption taken in the timer interrupt (wrapping).
pub fn record_timer_preempt(state: &mut PreemptState)
    ensures
        final(state).timer_preempts as int == (old(state).timer_preempts as int + 1)
            % 0x1_0000_0000_0000_0000,
        final(state).depth == old(state).depth,
        final(state).pending == old(state).pending,
        final(state).active == old(state).active,
{
    state.timer_preempts = state.timer_preempts.wrapping_add(1);
}

/// Number of preemptions taken in the timer interrupt.
pub fn isr_preempt_count(state: &PreemptState) -> (n: u64)
    ensures
        n == state.timer_preempts,
{
    state.timer_preempts
}

/// Records the index of the task that is running.
pub fn set_active_task(state: &mut PreemptState, idx: usize)
    ensures
        *final(state) == (PreemptState { active: idx, ..*old(state) }),
{
    state.active = idx;
}

/// The index of the running task, if one was recorded.
pub fn active_task(state: &PreemptState) -> (r: Option<usize>)
    ensures
        r == (if state.active == NO_ACTIVE_TASK {
            None
        } else {
            Some(state.active)
        }),
{
    if state.active == NO_ACTIVE_TASK {
        None
    } else {
        Some(state.active)
    }
}

/// Entering and then leaving a non-preemptible region gives back the
/// depth it started from; inside it, preemption is disabled.
pub proof fn lemma_guard_nesting(before: PreemptState, inside: PreemptState, after: PreemptState)
    requires
        before.depth < u32::MAX,
        inside.depth as int == (before.depth as int + 1) % 0x1_0000_0000,
        after.depth as int == (inside.depth as int - 1 + 0x1_0000_0000) % 0x1_0000_0000,
    ensures
        inside.depth > 0,
        after.depth == before.depth,
{
}

/// A requested preemption is taken exactly once: the first read after a
/// request sees it, the next read does not.
pub proof fn lemma_pending_read_once(s0: PreemptState, s1: PreemptState, s2: PreemptState)
    requires
        s1 == (PreemptState { pending: true, ..s0 }),
        s2 == (PreemptState { pending: false, ..s1 }),
    ensures
        s1.pending,
        !s2.pending,
        s2 == (PreemptState { pending: false, ..s0 }),
{
}

} // verus!
