use flynn_kernel::context::{allocate_stack, initial_stack_pointer, TaskContext};
use flynn_kernel::demo::{
    isr_preempts_line, log_worker_line, note_worker_finished, try_show_shell_prompt, DemoState,
};
use flynn_kernel::interrupts::InterruptIndex;
use flynn_kernel::layout::{kernel_stack_virt, MappedStack, KERNEL_STACK_BASE, KERNEL_STACK_SIZE};
use flynn_kernel::preempt::{
    active_task, isr_preempt_count, record_timer_preempt, request_preempt, set_active_task,
    take_pending, PreemptGuard, PreemptState,
};

#[test]
fn stack_layout() {
    assert_eq!(kernel_stack_virt(0), KERNEL_STACK_BASE);
    assert_eq!(kernel_stack_virt(3), 0xFFFF_A000_0001_8000);
    let s = allocate_stack(2);
    assert_eq!(s, MappedStack { virt_base: 0xFFFF_A000_0001_0000, len: KERNEL_STACK_SIZE });
}

#[test]
fn first_stack_pointer_is_aligned_below_top() {
    assert_eq!(initial_stack_pointer(0x1000, 0x1000), 0x1ff8);
    assert_eq!(initial_stack_pointer(0x1003, 0x1000), 0x1ff8);
    assert_eq!(initial_stack_pointer(0, 16), 8);
    let c = TaskContext { rsp: 0x1ff8 };
    assert_eq!(c.rsp % 16, 8);
}

#[test]
fn interrupt_vectors() {
    assert_eq!(InterruptIndex::Timer.as_u8(), 32);
    assert_eq!(InterruptIndex::Keyboard.as_u8(), 33);
}

#[test]
fn preempt_flags() {
    let mut p = PreemptState::new();
    assert_eq!(active_task(&p), None);
    set_active_task(&mut p, 3);
    assert_eq!(active_task(&p), Some(3));
    assert!(!take_pending(&mut p));
    request_preempt(&mut p);
    assert!(take_pending(&mut p));
    assert!(!take_pending(&mut p));
    record_timer_preempt(&mut p);
    record_timer_preempt(&mut p);
    assert_eq!(isr_preempt_count(&p), 2);
    let g1 = PreemptGuard::new(&mut p);
    let g2 = PreemptGuard::new(&mut p);
    assert_eq!(p.depth, 2);
    g2.release(&mut p);
    g1.release(&mut p);
    assert_eq!(p.depth, 0);
}

#[test]
fn shell_prompt_after_two_workers_once() {
    let mut d = DemoState::new();
    assert!(!try_show_shell_prompt(&mut d));
    note_worker_finished(&mut d);
    assert!(!try_show_shell_prompt(&mut d));
    note_worker_finished(&mut d);
    assert!(try_show_shell_prompt(&mut d));
    assert!(!try_show_shell_prompt(&mut d));
}

#[test]
fn demo_log_lines() {
    assert_eq!(log_worker_line(b'A', 3), b"A:3\n".to_vec());
    assert_eq!(isr_preempts_line(42), b"[task] isr_preempts=42\n".to_vec());
}
