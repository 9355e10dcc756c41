use flynn_kernel::memory_map::{memory_map_report, MemoryRegion, MemoryRegionKind};
use flynn_kernel::demo::{finish_task, finished_line, DemoState};
use flynn_kernel::frame_allocator::{FrameError, FrameStats};
use flynn_kernel::heap::HeapStats;
use flynn_kernel::keyboard::{enqueue_scancode, has_scancode, KeyQueue};
use flynn_kernel::scheduler::{
    notify_keyboard_input, on_timer_tick, sleep, spawn, start, Scheduler, SwitchAction, TaskState,
};
use flynn_kernel::preempt::PreemptState;
use flynn_kernel::shell::{
    execute, preempts, reply, run_line, sleep_usage, unknown, Command, ShellContext,
};
use flynn_kernel::terminal::{process_keyboard_buffer, process_serial_buffer, Terminal};

fn ctx() -> ShellContext {
    ShellContext {
        frames: Ok(FrameStats { total: 8, used: 3, free: 5 }),
        heap: HeapStats { used: 2048, free: 4096, total: 6144 },
        ticks: 77,
        preempts: 4,
    }
}

fn text(v: Vec<u8>) -> String {
    String::from_utf8(v).unwrap()
}

#[test]
fn fixed_command_texts() {
    assert_eq!(text(unknown()), "Unknown command\n");
    assert_eq!(text(sleep_usage()), "usage: sleep <ticks>\n");
    assert_eq!(text(preempts(12)), "12\n");
}

#[test]
fn replies_to_each_command() {
    let s = Scheduler::new();
    let c = ctx();
    assert_eq!(text(reply(&Command::Unknown, &c, &s)), "Unknown command\n");
    assert_eq!(text(reply(&Command::SleepUsage, &c, &s)), "usage: sleep <ticks>\n");
    assert_eq!(text(reply(&Command::Preempts, &c, &s)), "4\n");
    assert_eq!(text(reply(&Command::Ticks, &c, &s)), "ticks: 77\n");
    assert_eq!(text(reply(&Command::Empty, &c, &s)), "");
    assert_eq!(
        text(reply(&Command::Mem, &c, &s)),
        "frames: total=8 used=3 free=5\nheap:   used=2 KiB free=4 KiB total=6 KiB\n"
    );
    let c2 = ShellContext { frames: Err(FrameError::NotInitialized), ..ctx() };
    assert!(text(reply(&Command::Mem, &c2, &s)).starts_with("frames: unavailable\n"));
    assert_eq!(text(reply(&Command::Ps, &c, &s)), "ID  PRIO  STATE     WAIT  WAKE_AT\n");
}

#[test]
fn line_replies_end_with_prompt() {
    let s = Scheduler::new();
    let c = ctx();
    let r = run_line(b"foo", &c, &s);
    assert_eq!(r.command, Command::Unknown);
    assert_eq!(text(r.before), "Unknown command\n> ");
    assert_eq!(r.sleep, None);
    assert!(r.after.is_empty());
    let r = run_line(b"sleep abc", &c, &s);
    assert_eq!(text(r.before), "usage: sleep <ticks>\n> ");
    assert_eq!(r.sleep, None);
    let r = run_line(b"", &c, &s);
    assert_eq!(text(r.before), "> ");
    let r = run_line(b"say hello world", &c, &s);
    assert_eq!(text(r.before), "hello world\n> ");
    let r = run_line(b"preempts", &c, &s);
    assert_eq!(text(r.before), "4\n> ");
}

#[test]
fn sleep_line_sleeps_then_wakes() {
    let s = Scheduler::new();
    let r = run_line(b"sleep 5", &ctx(), &s);
    assert_eq!(r.command, Command::Sleep(5));
    assert_eq!(text(r.before), "sleeping 5 ticks...\n");
    assert_eq!(r.sleep, Some(5));
    assert_eq!(text(r.after), "woke up\n> ");
}

#[test]
fn trimmed_line_means_the_same() {
    assert_eq!(execute(b"  help \t"), execute(b"help"));
    assert_eq!(execute(b"HELP"), Command::Unknown);
    assert_eq!(execute(b" \t "), Command::Empty);
}

#[test]
fn finishing_logs_and_shows_prompt_once() {
    let mut s = Scheduler::new();
    spawn(&mut s, 1);
    spawn(&mut s, 1);
    spawn(&mut s, 0);
    assert_eq!(start(&mut s), SwitchAction::First { next: 0 });
    let mut d = DemoState { workers_finished: 2, prompt_shown: false };
    let mut term = Terminal::new();
    let mut keys = KeyQueue::new();
    enqueue_scancode(&mut keys, 0x1E);
    let f = finish_task(&mut s, &mut d, &mut term, &mut keys, 9);
    assert_eq!(text(f.output), "[task] finished id=1\n\n> [task] isr_preempts=9\n");
    assert_eq!(f.action, SwitchAction::Switch { prev: 0, next: 1 });
    assert_eq!(s.tasks[0].state, TaskState::Finished);
    assert!(d.prompt_shown);
    assert!(!has_scancode(&keys));
    let f = finish_task(&mut s, &mut d, &mut term, &mut keys, 9);
    assert_eq!(text(f.output), "[task] finished id=2\n");
    assert_eq!(text(finished_line(42)), "[task] finished id=42\n");
}

#[test]
fn repeated_batches_drain_the_queue() {
    let mut term = Terminal::new();
    let mut keys = KeyQueue::new();
    // "a" Enter "b" Enter "c"
    for c in [0x1Eu8, 0x1C, 0x30, 0x1C, 0x2E] {
        enqueue_scancode(&mut keys, c);
    }
    let mut commands = Vec::new();
    loop {
        let b = process_keyboard_buffer(&mut term, &mut keys);
        match b.command {
            Some(c) => commands.push(c),
            None => break,
        }
    }
    assert_eq!(commands, vec![b"a".to_vec(), b"b".to_vec()]);
    assert!(!has_scancode(&keys));
    assert_eq!(term.line, b"c".to_vec());

    let mut term = Terminal::new();
    let bytes = b"x\ry\nz";
    let mut start = 0;
    let mut got = Vec::new();
    while start < bytes.len() {
        let b = process_serial_buffer(&mut term, &bytes[start..]);
        assert!(b.consumed >= 1);
        start += b.consumed;
        match b.command {
            Some(c) => got.push(c),
            None => break,
        }
    }
    assert_eq!(start, bytes.len());
    assert_eq!(got, vec![b"x".to_vec(), b"y".to_vec()]);
}

#[test]
fn keyboard_input_does_not_wake_a_sleeper() {
    let mut s = Scheduler::new();
    spawn(&mut s, 1);
    spawn(&mut s, 0);
    start(&mut s);
    sleep(&mut s, 10, 5);
    assert_eq!(s.tasks[0].state, TaskState::Blocked);
    assert_eq!(s.tasks[0].wake_at, Some(15));
    notify_keyboard_input(&mut s);
    assert_eq!(s.tasks[0].state, TaskState::Blocked);
    let mut p = PreemptState::new();
    on_timer_tick(&mut s, &mut p, 14);
    assert_eq!(s.tasks[0].state, TaskState::Blocked);
    on_timer_tick(&mut s, &mut p, 15);
    assert_eq!(s.tasks[0].state, TaskState::Ready);
}

#[test]
fn unicode_white_space_is_trimmed_and_splits() {
    assert_eq!(execute("help\u{a0}".as_bytes()), Command::Help);
    assert_eq!(execute("\u{2003} ps\u{3000}".as_bytes()), Command::Ps);
    assert_eq!(execute("say\u{3000}hi there".as_bytes()), Command::Say(b"hi there".to_vec()));
    assert_eq!(execute("sleep\u{a0}\u{85}5\u{2029}".as_bytes()), Command::Sleep(5));
    assert_eq!(execute("help\u{e9}".as_bytes()), Command::Unknown);
    assert_eq!(flynn_kernel::shell::trim_command("\u{1680}ab\u{202f}".as_bytes()), b"ab".to_vec());
}

#[test]
fn memory_map_report_text() {
    let regions = [
        MemoryRegion { start: 0x1000, end: 0x9f000, kind: MemoryRegionKind::Usable },
        MemoryRegion { start: 0x100000, end: 0x180000, kind: MemoryRegionKind::Bootloader },
        MemoryRegion { start: 0xfee00000, end: 0xfee01000, kind: MemoryRegionKind::UnknownUefi(11) },
    ];
    let expected = format!(
        "[boot] memory map received (3 regions)\n  usable: {:#018x}..{:#018x} ({} bytes)\n  bootloader: {:#018x}..{:#018x} ({} bytes)\n  unknown-uefi: {:#018x}..{:#018x} ({} bytes)\n[boot] usable RAM: {} bytes\n",
        0x1000u64, 0x9f000u64, 0x9e000u64, 0x100000u64, 0x180000u64, 0x80000u64,
        0xfee00000u64, 0xfee01000u64, 0x1000u64, 0x9e000u64
    );
    assert_eq!(text(memory_map_report(&regions)), expected);
}

#[test]
fn hex_is_zero_padded() {
    let mut out = Vec::new();
    flynn_kernel::format::push_hex18(&mut out, u64::MAX);
    flynn_kernel::format::push_hex18(&mut out, 0xab);
    assert_eq!(text(out), "0xffffffffffffffff0x00000000000000ab");
}

#[test]
fn app_checks_are_library_predicates() {
    let mut s = Scheduler::new();
    assert!(s.can_spawn());
    assert!(s.no_task_running());
    assert!(s.current_is_not_waiting());
    spawn(&mut s, 1);
    start(&mut s);
    assert!(!s.no_task_running());
    assert!(s.current_is_not_waiting());
    flynn_kernel::scheduler::block_on_keyboard(&mut s, false);
    assert_eq!(s.keyboard_waiter, Some(0));
    assert!(!s.current_is_not_waiting());
    let regions = [MemoryRegion { start: 0x1000, end: 0x11000, kind: MemoryRegionKind::Usable }];
    assert_eq!(flynn_kernel::frame_allocator::usable_frame_count(&regions), Some(16));
    assert_eq!(flynn_kernel::frame_allocator::usable_frame_count(&[]), None);
}
