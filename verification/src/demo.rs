//! Bookkeeping of the demo tasks that run at boot: two workers that log
//! progress, and the shell prompt shown once both are done.
use vstd::prelude::*;
use vstd::string::StringSliceAdditionalSpecFns;
use crate::format::{decimal_spec, push_bytes, push_decimal, push_str};
use crate::keyboard::KeyQueue;
use crate::scheduler::{current_not_waiting, finish_spec, wf, Scheduler, SwitchAction, TaskId};
use crate::terminal::{show_shell_prompt, Terminal};

verus! {

/// Progress lines each worker logs.
pub const WORKER_ITERATIONS: u32 = 5;

/// Workers that have finished, and whether the shell prompt was shown.
#[derive(Debug, Clone, Copy, PartialEq, Eq, Structural)]
pub struct DemoState {
    pub workers_finished: u32,
    pub prompt_shown: bool,
}

impl DemoState {
    pub fn new() -> (d: Self)
        ensures
            d.workers_finished == 0,
            !d.prompt_shown,
    {
        DemoState { workers_finished: 0, prompt_shown: false }
    }
}

/// A worker is done (the count wraps as an atomic `fetch_add` does).
pub fn note_worker_finished(demo: &mut DemoState)
    ensures
        final(demo).workers_finished as int == (old(demo).workers_finished as int + 1)
            % 0x1_0000_0000,
        final(demo).prompt_shown == old(demo).prompt_shown,
{
    demo.workers_finished = demo.workers_finished.wrapping_add(1);
}

/// Whether to show the shell prompt now: the first time this is asked once
/// both workers are done, and never again.
pub fn try_show_shell_prompt(demo: &mut DemoState) -> (show: bool)
    ensures
        old(demo).workers_finished < 2 ==> !show && *final(demo) == *old(demo),
        old(demo).workers_finished >= 2 ==> show == !old(demo).prompt_shown
            && final(demo).prompt_shown && final(demo).workers_finished
            == old(demo).workers_finished,
{
    if demo.workers_finished < 2 {
        return false;
    }
    let was_shown = demo.prompt_shown;
    demo.prompt_shown = true;
    !was_shown
}

/// The log line with the number of preemptions taken in the timer interrupt.
pub fn isr_preempts_line(count: u64) -> (out: Vec<u8>)
    ensures
        out@ == "[task] isr_preempts=".spec_bytes() + decimal_spec(count as nat) + "\n".spec_bytes(),
{
    let mut out: Vec<u8> = Vec::new();
    push_str(&mut out, "[task] isr_preempts=");
    push_decimal(&mut out, count);
    push_str(&mut out, "\n");
    proof {
        assert(out@ =~= "[task] isr_preempts=".spec_bytes() + decimal_spec(count as nat)
            + "\n".spec_bytes());
    }
    out
}

/// A worker's progress line: its name, a colon, the iteration, a line break.
pub fn log_worker_line(name: u8, i: u32) -> (out: Vec<u8>)
    ensures
        out@ == seq![name, 58u8] + decimal_spec(i as nat) + seq![10u8],
{
    let mut out: Vec<u8> = Vec::new();
    out.push(name);
    out.push(58u8);
    push_decimal(&mut out, i as u64);
    out.push(10u8);
    proof {
        assert(out@ =~= seq![name, 58u8] + decimal_spec(i as nat) + seq![10u8]);
    }
    out
}

/// Showing the prompt happens at most once, however often it is asked.
pub proof fn lemma_prompt_shown_once(d0: DemoState, d1: DemoState, show: bool)
    requires
        d0.prompt_shown,
        d0.workers_finished >= 2 ==> show == !d0.prompt_shown && d1.prompt_shown,
        d0.workers_finished < 2 ==> !show && d1 == d0,
    ensures
        !show,
        d1.prompt_shown,
{
}

/// The log line for a finished task.
pub open spec fn finished_text(id: TaskId) -> Seq<u8> {
    "[task] finished id=".spec_bytes() + decimal_spec(id as nat) + "\n".spec_bytes()
}

/// The log line for a finished task.
pub fn finished_line(id: TaskId) -> (out: Vec<u8>)
    ensures
        out@ == finished_text(id),
{
    let mut out: Vec<u8> = Vec::new();
    push_str(&mut out, "[task] finished id=");
    push_decimal(&mut out, id);
    push_str(&mut out, "\n");
    proof {
        assert(out@ =~= finished_text(id));
    }
    out
}

/// The shell prompt is due: both workers are done and it was not shown.
pub open spec fn prompt_due(d: DemoState) -> bool {
    d.workers_finished >= 2 && !d.prompt_shown
}

/// The bookkeeping after asking whether to show the prompt.
pub open spec fn after_prompt_check(d: DemoState) -> DemoState {
    if d.workers_finished >= 2 {
        DemoState { prompt_shown: true, ..d }
    } else {
        d
    }
}

/// What the prompt writes: a fresh line with `"> "`, then the number of
/// preemptions taken in the timer interrupt.
pub open spec fn prompt_text(preempts: u64) -> Seq<u8> {
    "\n> ".spec_bytes() + "[task] isr_preempts=".spec_bytes() + decimal_spec(preempts as nat)
        + "\n".spec_bytes()
}

/// What finishing task `id` writes: its log line, and the prompt if due.
pub open spec fn finish_text(d: DemoState, id: TaskId, preempts: u64) -> Seq<u8> {
    if prompt_due(d) {
        finished_text(id) + prompt_text(preempts)
    } else {
        finished_text(id)
    }
}

/// The prompt is shown at most once: the finish that finds it due writes
/// it after its log line and records it as shown; from then on, whatever
/// workers finish meanwhile (which keeps the record), every finish writes
/// only its own log line and changes no bookkeeping.
pub proof fn lemma_prompt_at_most_once(
    d: DemoState,
    id: TaskId,
    preempts: u64,
    later: DemoState,
    id2: TaskId,
    preempts2: u64,
)
    requires
        prompt_due(d),
        later.prompt_shown,
    ensures
        finish_text(d, id, preempts) == finished_text(id) + prompt_text(preempts),
        after_prompt_check(d).prompt_shown,
        finish_text(later, id2, preempts2) == finished_text(id2),
        after_prompt_check(later) == later,
{
}

/// The outcome of finishing the running task: what to write, and the
/// switch to carry out.
pub struct FinishOutcome {
    pub output: Vec<u8>,
    pub action: SwitchAction,
}

/// The current task is done: it is marked finished and the next task is
/// picked; the log line is written, and if this makes the shell prompt due
/// (both workers done, prompt not shown yet), pending keys and any partial
/// line are dropped and the prompt and the preemption count follow.
pub fn finish_task(
    sched: &mut Scheduler,
    demo: &mut DemoState,
    term: &mut Terminal,
    keys: &mut KeyQueue,
    preempts: u64,
) -> (f: FinishOutcome)
    requires
        wf(old(sched)@),
        current_not_waiting(old(sched)@),
        crate::terminal::wf(old(term)),
    ensures
        (final(sched)@, f.action) == finish_spec(old(sched)@),
        wf(final(sched)@),
        crate::terminal::wf(final(term)),
        old(sched)@.current is None ==> f.output@ == Seq::<u8>::empty() && *final(demo) == *old(
            demo,
        ) && final(term).line@ == old(term).line@ && final(keys)@ == old(keys)@,
        old(sched)@.current matches Some(c) ==> ({
            let id = old(sched)@.tasks[c as int].id;
            &&& f.output@ == finish_text(*old(demo), id, preempts)
            &&& *final(demo) == after_prompt_check(*old(demo))
            &&& prompt_due(*old(demo)) ==> final(term).line@ == Seq::<u8>::empty()
                && final(keys)@ == Seq::<u8>::empty()
            &&& !prompt_due(*old(demo)) ==> final(term).line@ == old(term).line@ && final(keys)@
                == old(keys)@
        }),
{
    let finished = match sched.current {
        Some(c) => Some(sched.tasks[c].id),
        None => None,
    };
    let action = sched.finish_current();
    match finished {
        None => FinishOutcome { output: Vec::new(), action },
        Some(id) => {
            let mut output = finished_line(id);
            if try_show_shell_prompt(demo) {
                let ghost a = output@;
                let prompt = show_shell_prompt(term, keys);
                push_bytes(&mut output, prompt.as_slice());
                let ghost b = output@;
                let line = isr_preempts_line(preempts);
                push_bytes(&mut output, line.as_slice());
                proof {
                    assert(output@ =~= a + prompt_text(preempts));
                }
            }
            FinishOutcome { output, action }
        },
    }
}

} // verus!
