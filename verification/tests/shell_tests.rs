use flynn_kernel::frame_allocator::{FrameError, FrameStats};
use flynn_kernel::heap::{checked_stats, stats as heap_stats, HeapStats};
use flynn_kernel::shell::{
    bytes_to_kib, clear, execute, help, mem, say, sleep_ticks, ticks, Command,
};

#[test]
fn parses_commands() {
    assert_eq!(execute(b"help"), Command::Help);
    assert_eq!(execute(b"  ticks "), Command::Ticks);
    assert_eq!(execute(b"ps"), Command::Ps);
    assert_eq!(execute(b"mem"), Command::Mem);
    assert_eq!(execute(b"preempts"), Command::Preempts);
    assert_eq!(execute(b"clear"), Command::Clear);
    assert_eq!(execute(b"   "), Command::Empty);
    assert_eq!(execute(b"reboot now"), Command::Unknown);
    assert_eq!(execute(b"helpme"), Command::Unknown);
}

#[test]
fn parses_sleep_argument() {
    assert_eq!(execute(b"sleep 25"), Command::Sleep(25));
    assert_eq!(execute(b"sleep   +7  "), Command::Sleep(7));
    assert_eq!(execute(b"sleep"), Command::SleepUsage);
    assert_eq!(execute(b"sleep x"), Command::SleepUsage);
    assert_eq!(execute(b"sleep 99999999999"), Command::SleepUsage);
}

#[test]
fn say_keeps_rest_of_line() {
    assert_eq!(execute(b"say hello  world"), Command::Say(b"hello  world".to_vec()));
    assert_eq!(execute(b"say\tx"), Command::Say(b"x".to_vec()));
    assert_eq!(execute(b"say"), Command::Say(Vec::new()));
    assert_eq!(say(b"hi"), b"hi\n".to_vec());
}

#[test]
fn command_texts() {
    assert_eq!(ticks(1234), b"ticks: 1234\n".to_vec());
    assert_eq!(sleep_ticks(3), b"sleeping 3 ticks...\n".to_vec());
    assert_eq!(clear(), vec![b'\n'; 50]);
    let h = String::from_utf8(help()).unwrap();
    assert!(h.starts_with("mem to print frame and heap usage\n"));
    assert!(h.ends_with("help to print this help message\n"));
    assert_eq!(h.lines().count(), 6);
}

#[test]
fn mem_report() {
    let heap = HeapStats { used: 3000, free: 1045576, total: 1048576 };
    let out = mem(Ok(FrameStats { total: 10, used: 4, free: 6 }), heap);
    assert_eq!(
        String::from_utf8(out).unwrap(),
        "frames: total=10 used=4 free=6\nheap:   used=2 KiB free=1021 KiB total=1024 KiB\n"
    );
    let out2 = mem(Err(FrameError::NotInitialized), heap);
    assert!(String::from_utf8(out2).unwrap().starts_with("frames: unavailable\nheap:"));
    assert_eq!(bytes_to_kib(2047), 1);
}

#[test]
fn empty_heap_stats() {
    let h = linked_list_allocator::Heap::empty();
    assert_eq!(heap_stats(&h), HeapStats { used: 0, free: 0, total: 0 });
    assert_eq!(checked_stats(&h), Some(HeapStats { used: 0, free: 0, total: 0 }));
}

#[test]
fn ps_lists_tasks() {
    let mut s = flynn_kernel::scheduler::Scheduler::new();
    flynn_kernel::scheduler::spawn(&mut s, 2);
    let text = String::from_utf8(flynn_kernel::shell::ps(&s)).unwrap();
    assert_eq!(text, "ID  PRIO  STATE     WAIT  WAKE_AT\n 1   2     Ready     0   -\n");
}
