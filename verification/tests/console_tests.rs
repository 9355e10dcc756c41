use flynn_kernel::keyboard::{
    enqueue_scancode, flush_scancode_queue, has_scancode, pop_scancode, KeyQueue,
};
use flynn_kernel::terminal::{
    handle_serial_byte, process_keyboard_buffer, process_serial_buffer, scancode_to_ascii,
    show_shell_prompt, trim, Terminal,
};

fn keys(codes: &[u8]) -> KeyQueue {
    let mut q = KeyQueue::new();
    for &c in codes {
        enqueue_scancode(&mut q, c);
    }
    q
}

#[test]
fn key_queue_is_fifo_and_bounded() {
    let mut q = KeyQueue::new();
    assert!(!has_scancode(&q));
    for c in 0..70u8 {
        enqueue_scancode(&mut q, c);
    }
    assert!(has_scancode(&q));
    for c in 0..63u8 {
        assert_eq!(pop_scancode(&mut q), Some(c));
    }
    assert_eq!(pop_scancode(&mut q), None);
}

#[test]
fn flush_empties_queue() {
    let mut q = keys(&[1, 2, 3]);
    flush_scancode_queue(&mut q);
    assert!(!has_scancode(&q));
}

#[test]
fn keymap_samples() {
    assert_eq!(scancode_to_ascii(0x1E), Some(b'a'));
    assert_eq!(scancode_to_ascii(0x02), Some(b'1'));
    assert_eq!(scancode_to_ascii(0x39), Some(b' '));
    assert_eq!(scancode_to_ascii(0x01), None);
}

#[test]
fn typing_and_enter_submit_command() {
    let mut t = Terminal::new();
    // "ps" then Enter, then "a" left in the queue.
    let mut q = keys(&[0x19, 0x99, 0x1F, 0xE0, 0x1C, 0x1E]);
    let b = process_keyboard_buffer(&mut t, &mut q);
    assert_eq!(b.consumed, 5);
    assert_eq!(b.output, b"ps\n".to_vec());
    assert_eq!(b.command, Some(b"ps".to_vec()));
    assert!(t.line.is_empty());
    let b2 = process_keyboard_buffer(&mut t, &mut q);
    assert_eq!(b2.consumed, 1);
    assert_eq!(b2.output, b"a".to_vec());
    assert_eq!(b2.command, None);
    assert_eq!(t.line, b"a".to_vec());
    let b3 = process_keyboard_buffer(&mut t, &mut q);
    assert_eq!(b3.consumed, 0);
}

#[test]
fn backspace_erases_last_char() {
    let mut t = Terminal::new();
    let mut q = keys(&[0x1E, 0x30, 0x0E, 0x0E, 0x0E]);
    let b = process_keyboard_buffer(&mut t, &mut q);
    assert_eq!(b.output, b"ab\x08 \x08\x08 \x08".to_vec());
    assert!(t.line.is_empty());
}

#[test]
fn enter_trims_and_caps_command() {
    let mut t = Terminal::new();
    let mut input = b"   say  hi  ".to_vec();
    input.push(b'\r');
    let b = process_serial_buffer(&mut t, &input);
    assert_eq!(b.consumed, input.len());
    assert_eq!(b.command, Some(b"say  hi".to_vec()));
    let long = vec![b'x'; 200];
    for &c in &long {
        handle_serial_byte(&mut t, c, &mut Vec::new());
    }
    let mut out = Vec::new();
    let cmd = handle_serial_byte(&mut t, b'\n', &mut out);
    assert_eq!(cmd, Some(vec![b'x'; 128]));
    assert_eq!(out, b"\n".to_vec());
}

#[test]
fn serial_control_bytes() {
    let mut t = Terminal::new();
    let b = process_serial_buffer(&mut t, b"ab\x03\x7f\x01c\x08");
    assert_eq!(b.consumed, 7);
    assert_eq!(b.output, b"ab\x08 \x08c\x08 \x08".to_vec());
    assert_eq!(t.line, b"a".to_vec());
    assert_eq!(b.command, None);
}

#[test]
fn empty_line_submits_empty_command() {
    let mut t = Terminal::new();
    let b = process_serial_buffer(&mut t, b"  \nmem\n");
    assert_eq!(b.consumed, 3);
    assert_eq!(b.command, Some(Vec::new()));
}

#[test]
fn prompt_clears_line_and_queue() {
    let mut t = Terminal::new();
    process_serial_buffer(&mut t, b"junk");
    let mut q = keys(&[0x1E]);
    assert_eq!(show_shell_prompt(&mut t, &mut q), b"\n> ".to_vec());
    assert!(t.line.is_empty());
    assert!(!has_scancode(&q));
}

#[test]
fn trim_strips_ascii_white_space() {
    assert_eq!(trim(b" \t hello world \r\n"), b"hello world".to_vec());
    assert_eq!(trim(b"   "), Vec::<u8>::new());
}
