//! Line editing on the console: scancodes from the keyboard and bytes from
//! the serial port edit one input line; Enter submits it as a command.
//!
//! Each function here takes the input and returns what to write back and,
//! when Enter was pressed, the command line to run; the caller writes the
//! output and hands the command line to `shell::run_line`, whose answer
//! ends with the prompt `"> "`.
use vstd::prelude::*;
use vstd::string::StringSliceAdditionalSpecFns;
use crate::keyboard::{KeyQueue, flush_scancode_queue, pop_scancode};
use crate::format::{push_bytes, push_str};

verus! {

/// Set-1 scancode of Backspace.
pub const SC_BACKSPACE: u8 = 0x0E;

/// Set-1 scancode of Enter.
pub const SC_ENTER: u8 = 0x1C;

/// Prefix byte of extended set-1 scancodes.
pub const SC_EXTENDED: u8 = 0xE0;

/// Longest command line passed on, in bytes.
pub const CMD_MAX: usize = 128;

/// The line being typed: printable ASCII only.
pub struct Terminal {
    pub line: Vec<u8>,
}

/// A printable ASCII byte: a graphic character or space.
pub open spec fn printable(b: u8) -> bool {
    0x20 <= b <= 0x7e
}

/// The line holds printable ASCII only.
pub open spec fn wf(t: &Terminal) -> bool {
    forall|i: int| 0 <= i < t.line@.len() ==> #[trigger] printable(t.line@[i])
}

/// ASCII white space as `str::trim` sees it (tab, line feed, vertical tab,
/// form feed, carriage return, space).
pub open spec fn is_ws(b: u8) -> bool {
    b == 9 || b == 10 || b == 11 || b == 12 || b == 13 || b == 32
}

/// `s` without leading white space.
pub open spec fn trim_start_spec(s: Seq<u8>) -> Seq<u8>
    decreases s.len(),
{
    if s.len() > 0 && is_ws(s[0]) {
        trim_start_spec(s.drop_first())
    } else {
        s
    }
}

/// `s` without trailing white space.
pub open spec fn trim_end_spec(s: Seq<u8>) -> Seq<u8>
    decreases s.len(),
{
    if s.len() > 0 && is_ws(s.last()) {
        trim_end_spec(s.drop_last())
    } else {
        s
    }
}

/// `s` without white space at either end.
pub open spec fn trim_spec(s: Seq<u8>) -> Seq<u8> {
    trim_end_spec(trim_start_spec(s))
}

proof fn lemma_trim_start_front(s: Seq<u8>)
    ensures
        trim_start_spec(s).len() > 0 ==> !is_ws(trim_start_spec(s)[0]),
    decreases s.len(),
{
    if s.len() > 0 && is_ws(s[0]) {
        lemma_trim_start_front(s.drop_first());
    }
}

proof fn lemma_trim_end_prefix(s: Seq<u8>)
    ensures
        trim_end_spec(s).len() <= s.len(),
        trim_end_spec(s) == s.take(trim_end_spec(s).len() as int),
        trim_end_spec(s).len() > 0 ==> !is_ws(trim_end_spec(s).last()),
    decreases s.len(),
{
    if s.len() > 0 && is_ws(s.last()) {
        lemma_trim_end_prefix(s.drop_last());
        assert(s.drop_last().take(trim_end_spec(s).len() as int) =~= s.take(
            trim_end_spec(s).len() as int,
        ));
    } else {
        assert(s.take(s.len() as int) =~= s);
    }
}

/// Trimming twice is trimming once.
pub proof fn lemma_trim_idempotent(s: Seq<u8>)
    ensures
        trim_spec(trim_spec(s)) == trim_spec(s),
{
    let x = trim_start_spec(s);
    let y = trim_end_spec(x);
    lemma_trim_start_front(s);
    lemma_trim_end_prefix(x);
    if y.len() > 0 {
        assert(y[0] == x[0]);
    }
    assert(trim_start_spec(y) == y);
    assert(trim_end_spec(y) == y);
}

/// The command that Enter submits: the trimmed line, cut to `CMD_MAX` bytes.
pub open spec fn command_of(line: Seq<u8>) -> Seq<u8> {
    let t = trim_spec(line);
    if t.len() <= CMD_MAX {
        t
    } else {
        t.take(CMD_MAX as int)
    }
}

/// The character a set-1 make code stands for on a US keyboard, without
/// shift: digits, lower-case letters, punctuation and space.
pub open spec fn keymap_spec(code: u8) -> Option<u8> {
    match code {
        0x02 => Some(0x31u8),
        0x03 => Some(0x32u8),
        0x04 => Some(0x33u8),
        0x05 => Some(0x34u8),
        0x06 => Some(0x35u8),
        0x07 => Some(0x36u8),
        0x08 => Some(0x37u8),
        0x09 => Some(0x38u8),
        0x0A => Some(0x39u8),
        0x0B => Some(0x30u8),
        0x0C => Some(0x2du8),
        0x0D => Some(0x3du8),
        0x10 => Some(0x71u8),
        0x11 => Some(0x77u8),
        0x12 => Some(0x65u8),
        0x13 => Some(0x72u8),
        0x14 => Some(0x74u8),
        0x15 => Some(0x79u8),
        0x16 => Some(0x75u8),
        0x17 => Some(0x69u8),
        0x18 => Some(0x6fu8),
        0x19 => Some(0x70u8),
        0x1A => Some(0x5bu8),
        0x1B => Some(0x5du8),
        0x1E => Some(0x61u8),
        0x1F => Some(0x73u8),
        0x20 => Some(0x64u8),
        0x21 => Some(0x66u8),
        0x22 => Some(0x67u8),
        0x23 => Some(0x68u8),
        0x24 => Some(0x6au8),
        0x25 => Some(0x6bu8),
        0x26 => Some(0x6cu8),
        0x27 => Some(0x3bu8),
        0x28 => Some(0x27u8),
        0x29 => Some(0x60u8),
        0x2B => Some(0x5cu8),
        0x2C => Some(0x7au8),
        0x2D => Some(0x78u8),
        0x2E => Some(0x63u8),
        0x2F => Some(0x76u8),
        0x30 => Some(0x62u8),
        0x31 => Some(0x6eu8),
        0x32 => Some(0x6du8),
        0x33 => Some(0x2cu8),
        0x34 => Some(0x2eu8),
        0x35 => Some(0x2fu8),
        0x39 => Some(0x20u8),
        _ => None,
    }
}

/// The character a set-1 make code stands for (see `keymap_spec`).
pub fn scancode_to_ascii(code: u8) -> (c: Option<u8>)
    ensures
        c == keymap_spec(code),
        c matches Some(b) ==> printable(b),
{
    match code {
        0x02 => Some(0x31u8),
        0x03 => Some(0x32u8),
        0x04 => Some(0x33u8),
        0x05 => Some(0x34u8),
        0x06 => Some(0x35u8),
        0x07 => Some(0x36u8),
        0x08 => Some(0x37u8),
        0x09 => Some(0x38u8),
        0x0A => Some(0x39u8),
        0x0B => Some(0x30u8),
        0x0C => Some(0x2du8),
        0x0D => Some(0x3du8),
        0x10 => Some(0x71u8),
        0x11 => Some(0x77u8),
        0x12 => Some(0x65u8),
        0x13 => Some(0x72u8),
        0x14 => Some(0x74u8),
        0x15 => Some(0x79u8),
        0x16 => Some(0x75u8),
        0x17 => Some(0x69u8),
        0x18 => Some(0x6fu8),
        0x19 => Some(0x70u8),
        0x1A => Some(0x5bu8),
        0x1B => Some(0x5du8),
        0x1E => Some(0x61u8),
        0x1F => Some(0x73u8),
        0x20 => Some(0x64u8),
        0x21 => Some(0x66u8),
        0x22 => Some(0x67u8),
        0x23 => Some(0x68u8),
        0x24 => Some(0x6au8),
        0x25 => Some(0x6bu8),
        0x26 => Some(0x6cu8),
        0x27 => Some(0x3bu8),
        0x28 => Some(0x27u8),
        0x29 => Some(0x60u8),
        0x2B => Some(0x5cu8),
        0x2C => Some(0x7au8),
        0x2D => Some(0x78u8),
        0x2E => Some(0x63u8),
        0x2F => Some(0x76u8),
        0x30 => Some(0x62u8),
        0x31 => Some(0x6eu8),
        0x32 => Some(0x6du8),
        0x33 => Some(0x2cu8),
        0x34 => Some(0x2eu8),
        0x35 => Some(0x2fu8),
        0x39 => Some(0x20u8),
        _ => None,
    }
}

/// Bytes that erase the last echoed character on the console.
pub open spec fn erase_seq() -> Seq<u8> {
    "\x08 \x08".spec_bytes()
}

/// One edit of the line: the new line, what to write back, and the
/// submitted command if the edit was Enter.
pub struct Edit {
    pub line: Seq<u8>,
    pub output: Seq<u8>,
    pub command: Option<Seq<u8>>,
}

/// Typing the printable character `c`: it is appended and echoed.
pub open spec fn push_edit(line: Seq<u8>, c: u8) -> Edit {
    Edit { line: line.push(c), output: seq![c], command: None }
}

/// Backspace: the last character goes, and is erased on the console if
/// there was one.
pub open spec fn backspace_edit(line: Seq<u8>) -> Edit {
    if line.len() > 0 {
        Edit { line: line.drop_last(), output: erase_seq(), command: None }
    } else {
        Edit { line, output: Seq::empty(), command: None }
    }
}

/// Enter: the line is submitted as a command and cleared; a new line
/// starts on the console.
pub open spec fn enter_edit(line: Seq<u8>) -> Edit {
    Edit { line: Seq::empty(), output: "\n".spec_bytes(), command: Some(command_of(line)) }
}

/// Nothing changes.
pub open spec fn no_edit(line: Seq<u8>) -> Edit {
    Edit { line, output: Seq::empty(), command: None }
}

/// The edit a keyboard scancode makes: extended prefixes and key releases
/// do nothing; Backspace and Enter edit; other make codes type their
/// character, if they have one.
pub open spec fn key_edit(line: Seq<u8>, code: u8) -> Edit {
    if code == SC_EXTENDED || code >= 0x80 {
        no_edit(line)
    } else if code == SC_BACKSPACE {
        backspace_edit(line)
    } else if code == SC_ENTER {
        enter_edit(line)
    } else {
        match keymap_spec(code) {
            Some(c) => push_edit(line, c),
            None => no_edit(line),
        }
    }
}

/// The edit a serial byte makes: CR or LF submit; BS or DEL erase; Ctrl-C
/// and other control or non-ASCII bytes are ignored; printable bytes are
/// typed.
pub open spec fn serial_edit(line: Seq<u8>, byte: u8) -> Edit {
    if byte == 13 || byte == 10 {
        enter_edit(line)
    } else if byte == 8 || byte == 0x7f {
        backspace_edit(line)
    } else if printable(byte) {
        push_edit(line, byte)
    } else {
        no_edit(line)
    }
}

/// The result of feeding input items to the line editor until a command is
/// submitted or the input runs out: the line, everything to write back,
/// the command (if any), and how many items were consumed.
pub struct Drain {
    pub line: Seq<u8>,
    pub output: Seq<u8>,
    pub command: Option<Seq<u8>>,
    pub consumed: nat,
}

/// Feeding keyboard scancodes `codes`, front first.
pub open spec fn key_drain(line: Seq<u8>, codes: Seq<u8>) -> Drain
    decreases codes.len(),
{
    if codes.len() == 0 {
        Drain { line, output: Seq::empty(), command: None, consumed: 0 }
    } else {
        let e = key_edit(line, codes[0]);
        if e.command is Some {
            Drain { line: e.line, output: e.output, command: e.command, consumed: 1 }
        } else {
            let rest = key_drain(e.line, codes.drop_first());
            Drain {
                line: rest.line,
                output: e.output + rest.output,
                command: rest.command,
                consumed: rest.consumed + 1,
            }
        }
    }
}

/// Feeding serial bytes `bytes`, front first.
pub open spec fn serial_drain(line: Seq<u8>, bytes: Seq<u8>) -> Drain
    decreases bytes.len(),
{
    if bytes.len() == 0 {
        Drain { line, output: Seq::empty(), command: None, consumed: 0 }
    } else {
        let e = serial_edit(line, bytes[0]);
        if e.command is Some {
            Drain { line: e.line, output: e.output, command: e.command, consumed: 1 }
        } else {
            let rest = serial_drain(e.line, bytes.drop_first());
            Drain {
                line: rest.line,
                output: e.output + rest.output,
                command: rest.command,
                consumed: rest.consumed + 1,
            }
        }
    }
}

/// All of an input fed to the line editor: the final line, everything
/// written back, and every command submitted, in order.
pub struct Fold {
    pub line: Seq<u8>,
    pub output: Seq<u8>,
    pub commands: Seq<Seq<u8>>,
}

/// The edit `e` followed by the fold `r` of the rest.
pub open spec fn fold_step(e: Edit, r: Fold) -> Fold {
    Fold {
        line: r.line,
        output: e.output + r.output,
        commands: match e.command {
            Some(c) => seq![c] + r.commands,
            None => r.commands,
        },
    }
}

/// Feeding every scancode of `codes` to the line editor, front first.
pub open spec fn key_fold(line: Seq<u8>, codes: Seq<u8>) -> Fold
    decreases codes.len(),
{
    if codes.len() == 0 {
        Fold { line, output: Seq::empty(), commands: Seq::empty() }
    } else {
        let e = key_edit(line, codes[0]);
        fold_step(e, key_fold(e.line, codes.drop_first()))
    }
}

/// Feeding every byte of `bytes` to the line editor, front first.
pub open spec fn serial_fold(line: Seq<u8>, bytes: Seq<u8>) -> Fold
    decreases bytes.len(),
{
    if bytes.len() == 0 {
        Fold { line, output: Seq::empty(), commands: Seq::empty() }
    } else {
        let e = serial_edit(line, bytes[0]);
        fold_step(e, serial_fold(e.line, bytes.drop_first()))
    }
}

/// One batch, then the fold of what it left: the batch's output, its
/// command (if any) first among the commands, and the rest.
pub open spec fn batch_then(d: Drain, rest: Fold) -> Fold {
    match d.command {
        None => Fold { line: d.line, output: d.output, commands: Seq::empty() },
        Some(c) => Fold {
            line: rest.line,
            output: d.output + rest.output,
            commands: seq![c] + rest.commands,
        },
    }
}

/// Keyboard batches repeated until one submits nothing handle the whole
/// queue: a batch followed by the fold of the scancodes it left is the
/// fold of all of them. Running a submitted command in between changes
/// neither the line nor the queue, so the lines written and the commands
/// run are exactly those of `key_fold`.
pub proof fn lemma_key_batches_fold(line: Seq<u8>, codes: Seq<u8>)
    ensures
        ({
            let d = key_drain(line, codes);
            key_fold(line, codes) == batch_then(d, key_fold(d.line, codes.skip(d.consumed as int)))
        }),
    decreases codes.len(),
{
    if codes.len() > 0 {
        let e = key_edit(line, codes[0]);
        let t = codes.drop_first();
        lemma_key_batches_fold(e.line, t);
        if e.command is Some {
            assert(codes.skip(1) =~= t);
            assert(key_fold(line, codes) =~= batch_then(key_drain(line, codes), key_fold(e.line, t)));
        } else {
            let d2 = key_drain(e.line, t);
            lemma_key_drain_progress(e.line, t);
            assert(codes.skip((d2.consumed + 1) as int) =~= t.skip(d2.consumed as int));
            let r = key_fold(d2.line, t.skip(d2.consumed as int));
            assert(e.output + (d2.output + r.output) =~= (e.output + d2.output) + r.output);
            assert(e.output + d2.output =~= key_drain(line, codes).output);
            assert(key_fold(line, codes) =~= batch_then(
                key_drain(line, codes),
                key_fold(key_drain(line, codes).line, codes.skip(key_drain(line, codes).consumed as int)),
            ));
        }
    } else {
        assert(key_fold(line, codes) =~= batch_then(
            key_drain(line, codes),
            key_fold(line, codes.skip(0)),
        ));
    }
}

/// The same for serial batches and the bytes they are given.
pub proof fn lemma_serial_batches_fold(line: Seq<u8>, bytes: Seq<u8>)
    ensures
        ({
            let d = serial_drain(line, bytes);
            serial_fold(line, bytes) == batch_then(
                d,
                serial_fold(d.line, bytes.skip(d.consumed as int)),
            )
        }),
    decreases bytes.len(),
{
    if bytes.len() > 0 {
        let e = serial_edit(line, bytes[0]);
        let t = bytes.drop_first();
        lemma_serial_batches_fold(e.line, t);
        if e.command is Some {
            assert(bytes.skip(1) =~= t);
            assert(serial_fold(line, bytes) =~= batch_then(
                serial_drain(line, bytes),
                serial_fold(e.line, t),
            ));
        } else {
            let d2 = serial_drain(e.line, t);
            lemma_serial_drain_progress(e.line, t);
            assert(bytes.skip((d2.consumed + 1) as int) =~= t.skip(d2.consumed as int));
            let r = serial_fold(d2.line, t.skip(d2.consumed as int));
            assert(e.output + (d2.output + r.output) =~= (e.output + d2.output) + r.output);
            assert(e.output + d2.output =~= serial_drain(line, bytes).output);
            assert(serial_fold(line, bytes) =~= batch_then(
                serial_drain(line, bytes),
                serial_fold(
                    serial_drain(line, bytes).line,
                    bytes.skip(serial_drain(line, bytes).consumed as int),
                ),
            ));
        }
    } else {
        assert(serial_fold(line, bytes) =~= batch_then(
            serial_drain(line, bytes),
            serial_fold(line, bytes.skip(0)),
        ));
    }
}

/// A keyboard batch handles at least one scancode when one is waiting,
/// never more than are waiting, and stops before the end only where Enter
/// submitted a command; so batches repeated until one submits nothing
/// handle every scancode, front first.
pub proof fn lemma_key_drain_progress(line: Seq<u8>, codes: Seq<u8>)
    ensures
        key_drain(line, codes).consumed <= codes.len(),
        codes.len() > 0 ==> key_drain(line, codes).consumed >= 1,
        key_drain(line, codes).command is None ==> key_drain(line, codes).consumed == codes.len(),
    decreases codes.len(),
{
    if codes.len() > 0 {
        let e = key_edit(line, codes[0]);
        lemma_key_drain_progress(e.line, codes.drop_first());
    }
}

/// The same for a serial batch and the bytes it is given.
pub proof fn lemma_serial_drain_progress(line: Seq<u8>, bytes: Seq<u8>)
    ensures
        serial_drain(line, bytes).consumed <= bytes.len(),
        bytes.len() > 0 ==> serial_drain(line, bytes).consumed >= 1,
        serial_drain(line, bytes).command is None ==> serial_drain(line, bytes).consumed
            == bytes.len(),
    decreases bytes.len(),
{
    if bytes.len() > 0 {
        let e = serial_edit(line, bytes[0]);
        lemma_serial_drain_progress(e.line, bytes.drop_first());
    }
}

/// Typing a character and then Backspace leaves the line as it was and
/// erases the echo.
pub proof fn lemma_type_then_backspace(line: Seq<u8>, c: u8)
    ensures
        backspace_edit(push_edit(line, c).line).line == line,
        backspace_edit(push_edit(line, c).line).output == erase_seq(),
{
    assert(line.push(c).drop_last() =~= line);
}

/// Enter always clears the line and submits it trimmed and within
/// `CMD_MAX` bytes.
pub proof fn lemma_enter_clears(line: Seq<u8>)
    ensures
        enter_edit(line).line.len() == 0,
        enter_edit(line).command matches Some(c) && c.len() <= CMD_MAX,
{
}

/// What a batch of input gave: how many items were consumed, what to write
/// back, and the command line if Enter was pressed (which `shell::run_line`
/// answers).
pub struct InputBatch {
    pub consumed: usize,
    pub output: Vec<u8>,
    pub command: Option<Vec<u8>>,
}

/// The batch matches the specification `d`.
pub open spec fn batch_matches(b: &InputBatch, d: Drain) -> bool {
    &&& b.consumed == d.consumed
    &&& b.output@ == d.output
    &&& b.command.is_some() == d.command.is_some()
    &&& b.command matches Some(c) ==> c@ == d.command->0
}

impl Terminal {
    /// An empty line.
    pub fn new() -> (t: Self)
        ensures
            wf(&t),
            t.line@ == Seq::<u8>::empty(),
    {
        Terminal { line: Vec::new() }
    }
}

/// Appends the printable character `c` to the line and echoes it.
fn push_char(term: &mut Terminal, c: u8, out: &mut Vec<u8>)
    requires
        wf(old(term)),
        printable(c),
    ensures
        wf(final(term)),
        final(term).line@ == push_edit(old(term).line@, c).line,
        final(out)@ == old(out)@ + push_edit(old(term).line@, c).output,
{
    term.line.push(c);
    out.push(c);
    proof {
        assert(out@ =~= old(out)@ + seq![c]);
        assert forall|i: int| 0 <= i < term.line@.len() implies #[trigger] printable(
            term.line@[i],
        ) by {
            if i < old(term).line@.len() {
                assert(term.line@[i] == old(term).line@[i]);
            }
        }
    }
}

/// Removes the last character of the line, erasing it on the console.
fn handle_backspace(term: &mut Terminal, out: &mut Vec<u8>)
    requires
        wf(old(term)),
    ensures
        wf(final(term)),
        final(term).line@ == backspace_edit(old(term).line@).line,
        final(out)@ == old(out)@ + backspace_edit(old(term).line@).output,
{
    match term.line.pop() {
        Some(_) => {
            push_str(out, "\x08 \x08");
            proof {
                assert(term.line@ =~= old(term).line@.drop_last());
                assert forall|i: int| 0 <= i < term.line@.len() implies #[trigger] printable(
                    term.line@[i],
                ) by {
                    assert(term.line@[i] == old(term).line@[i]);
                }
            }
        },
        None => {
            proof {
                assert(out@ =~= old(out)@ + Seq::<u8>::empty());
            }
        },
    }
}

/// `s` without white space at either end.
pub fn trim(s: &[u8]) -> (t: Vec<u8>)
    ensures
        t@ == trim_spec(s@),
{
    let mut a: usize = 0;
    proof {
        assert(s@.skip(0) =~= s@);
    }
    while a < s.len() && (s[a] == 9u8 || s[a] == 10u8 || s[a] == 11u8 || s[a] == 12u8 || s[a]
        == 13u8 || s[a] == 32u8)
        invariant
            a <= s@.len(),
            trim_start_spec(s@) == trim_start_spec(s@.skip(a as int)),
        decreases s@.len() - a,
    {
        proof {
            assert(s@.skip(a as int).drop_first() =~= s@.skip(a + 1));
        }
        a = a + 1;
    }
    proof {
        assert(trim_start_spec(s@.skip(a as int)) == s@.skip(a as int));
    }
    let mut b: usize = s.len();
    while b > a && (s[b - 1] == 9u8 || s[b - 1] == 10u8 || s[b - 1] == 11u8 || s[b - 1] == 12u8
        || s[b - 1] == 13u8 || s[b - 1] == 32u8)
        invariant
            a <= b <= s@.len(),
            trim_start_spec(s@) == s@.skip(a as int),
            trim_end_spec(s@.skip(a as int)) == trim_end_spec(s@.subrange(a as int, b as int)),
        decreases b - a,
    {
        proof {
            assert(s@.subrange(a as int, b as int).drop_last() =~= s@.subrange(a as int, b - 1));
        }
        b = b - 1;
    }
    proof {
        assert(s@.skip(a as int) =~= s@.subrange(a as int, s@.len() as int));
        assert(trim_end_spec(s@.subrange(a as int, b as int)) == s@.subrange(a as int, b as int));
    }
    let mut t: Vec<u8> = Vec::new();
    let mut i: usize = a;
    while i < b
        invariant
            a <= i <= b <= s@.len(),
            t@ == s@.subrange(a as int, i as int),
        decreases b - i,
    {
        t.push(s[i]);
        i = i + 1;
        proof {
            assert(t@ =~= s@.subrange(a as int, i as int));
        }
    }
    t
}

/// Enter: submits the trimmed line (at most `CMD_MAX` bytes) and clears it.
fn handle_enter(term: &mut Terminal, out: &mut Vec<u8>) -> (cmd: Vec<u8>)
    requires
        wf(old(term)),
    ensures
        wf(final(term)),
        final(term).line@ == enter_edit(old(term).line@).line,
        final(out)@ == old(out)@ + enter_edit(old(term).line@).output,
        cmd@ == command_of(old(term).line@),
{
    let trimmed = trim(term.line.as_slice());
    let len = if trimmed.len() < CMD_MAX {
        trimmed.len()
    } else {
        CMD_MAX
    };
    let mut cmd: Vec<u8> = Vec::new();
    let mut i: usize = 0;
    while i < len
        invariant
            i <= len <= trimmed@.len(),
            cmd@ == trimmed@.take(i as int),
        decreases len - i,
    {
        cmd.push(trimmed[i]);
        i = i + 1;
        proof {
            assert(cmd@ =~= trimmed@.take(i as int));
        }
    }
    term.line.clear();
    push_str(out, "\n");
    proof {
        assert(term.line@ =~= Seq::<u8>::empty());
        if trimmed@.len() <= CMD_MAX {
            assert(trimmed@.take(len as int) =~= trimmed@);
        }
    }
    cmd
}

/// Applies one keyboard scancode; returns the submitted command on Enter.
fn key_step(term: &mut Terminal, code: u8, out: &mut Vec<u8>) -> (cmd: Option<Vec<u8>>)
    requires
        wf(old(term)),
    ensures
        wf(final(term)),
        final(term).line@ == key_edit(old(term).line@, code).line,
        final(out)@ == old(out)@ + key_edit(old(term).line@, code).output,
        cmd.is_some() == key_edit(old(term).line@, code).command.is_some(),
        cmd matches Some(c) ==> c@ == key_edit(old(term).line@, code).command->0,
{
    if code == SC_EXTENDED || code & 0x80u8 != 0 {
        proof {
            assert(code & 0x80u8 != 0 <==> code >= 0x80) by (bit_vector);
            assert(out@ =~= old(out)@ + Seq::<u8>::empty());
        }
        return None;
    }
    proof {
        assert(code & 0x80u8 != 0 <==> code >= 0x80) by (bit_vector);
    }
    if code == SC_BACKSPACE {
        handle_backspace(term, out);
        None
    } else if code == SC_ENTER {
        Some(handle_enter(term, out))
    } else {
        match scancode_to_ascii(code) {
            Some(c) => {
                push_char(term, c, out);
                None
            },
            None => {
                proof {
                    assert(out@ =~= old(out)@ + Seq::<u8>::empty());
                }
                None
            },
        }
    }
}

/// Applies one serial byte; returns the submitted command on CR or LF.
pub fn handle_serial_byte(term: &mut Terminal, byte: u8, out: &mut Vec<u8>) -> (cmd: Option<
    Vec<u8>,
>)
    requires
        wf(old(term)),
    ensures
        wf(final(term)),
        final(term).line@ == serial_edit(old(term).line@, byte).line,
        final(out)@ == old(out)@ + serial_edit(old(term).line@, byte).output,
        cmd.is_some() == serial_edit(old(term).line@, byte).command.is_some(),
        cmd matches Some(c) ==> c@ == serial_edit(old(term).line@, byte).command->0,
{
    if byte == 13u8 || byte == 10u8 {
        Some(handle_enter(term, out))
    } else if byte == 8u8 || byte == 0x7fu8 {
        handle_backspace(term, out);
        None
    } else if 0x20u8 <= byte && byte <= 0x7eu8 {
        push_char(term, byte, out);
        None
    } else {
        proof {
            assert(out@ =~= old(out)@ + Seq::<u8>::empty());
        }
        None
    }
}

/// Shows the shell prompt: drops pending scancodes and any partial line,
/// and returns the text to write.
pub fn show_shell_prompt(term: &mut Terminal, keys: &mut KeyQueue) -> (out: Vec<u8>)
    ensures
        wf(final(term)),
        final(term).line@ == Seq::<u8>::empty(),
        final(keys)@ == Seq::<u8>::empty(),
        out@ == "\n> ".spec_bytes(),
{
    flush_scancode_queue(keys);
    term.line.clear();
    let mut out: Vec<u8> = Vec::new();
    push_str(&mut out, "\n> ");
    proof {
        assert(term.line@ =~= Seq::<u8>::empty());
        assert(out@ =~= "\n> ".spec_bytes());
    }
    out
}

/// Takes scancodes from `keys` and edits the line until Enter submits a
/// command or no scancode is left (see `key_drain`). At least one
/// scancode was processed exactly when `consumed > 0`.
pub fn process_keyboard_buffer(term: &mut Terminal, keys: &mut KeyQueue) -> (b: InputBatch)
    requires
        wf(old(term)),
    ensures
        wf(final(term)),
        batch_matches(&b, key_drain(old(term).line@, old(keys)@)),
        final(term).line@ == key_drain(old(term).line@, old(keys)@).line,
        final(keys)@ == old(keys)@.skip(b.consumed as int),
        old(keys)@.len() > 0 ==> b.consumed >= 1,
        b.command is None ==> final(keys)@ == Seq::<u8>::empty(),
{
    proof {
        lemma_key_drain_progress(old(term).line@, old(keys)@);
    }
    let mut out: Vec<u8> = Vec::new();
    let mut consumed: usize = 0;
    proof {
        assert(old(keys)@.skip(0) =~= old(keys)@);
        assert(out@ + key_drain(term.line@, keys@).output =~= key_drain(term.line@, keys@).output);
    }
    loop
        invariant_except_break
            wf(term),
            consumed <= old(keys)@.len(),
            consumed > 0 ==> old(keys)@.len() <= 63,
            keys@ == old(keys)@.skip(consumed as int),
            ({
                let rest = key_drain(term.line@, keys@);
                let all = key_drain(old(term).line@, old(keys)@);
                &&& all.line == rest.line
                &&& all.output == out@ + rest.output
                &&& all.command == rest.command
                &&& all.consumed == consumed + rest.consumed
            }),
        ensures
            wf(term),
            ({
                let all = key_drain(old(term).line@, old(keys)@);
                &&& consumed == all.consumed
                &&& out@ == all.output
                &&& term.line@ == all.line
                &&& all.command is None
            }),
            keys@ == old(keys)@.skip(consumed as int),
        decreases keys@.len(),
    {
        let ghost line0 = term.line@;
        let ghost keys0 = keys@;
        let ghost out0 = out@;
        let code = match pop_scancode(keys) {
            Some(c) => c,
            None => {
                proof {
                    assert(keys0.len() == 0);
                    assert(out@ =~= out@ + Seq::<u8>::empty());
                }
                break;
            },
        };
        proof {
            assert(old(keys)@.skip(consumed + 1) =~= keys0.drop_first());
        }
        consumed = consumed + 1;
        let cmd = key_step(term, code, &mut out);
        proof {
            let e = key_edit(line0, code);
            assert(key_drain(line0, keys0).output =~= e.output + (if e.command is Some {
                Seq::<u8>::empty()
            } else {
                key_drain(e.line, keys0.drop_first()).output
            }));
            assert(out@ =~= out0 + e.output);
        }
        match cmd {
            Some(c) => {
                proof {
                    let e = key_edit(line0, code);
                    assert(key_drain(old(term).line@, old(keys)@).output =~= out@);
                }
                return InputBatch { consumed, output: out, command: Some(c) };
            },
            None => {
                proof {
                    let e = key_edit(line0, code);
                    let rest = key_drain(e.line, keys0.drop_first());
                    assert(out0 + (e.output + rest.output) =~= out@ + rest.output);
                }
            },
        }
    }
    InputBatch { consumed, output: out, command: None }
}

/// Edits the line with the bytes of `bytes`, front first, until CR or LF
/// submits a command or the bytes run out (see `serial_drain`). At least
/// one byte was handled exactly when `consumed > 0`.
pub fn process_serial_buffer(term: &mut Terminal, bytes: &[u8]) -> (b: InputBatch)
    requires
        wf(old(term)),
    ensures
        wf(final(term)),
        batch_matches(&b, serial_drain(old(term).line@, bytes@)),
        final(term).line@ == serial_drain(old(term).line@, bytes@).line,
        b.consumed <= bytes@.len(),
        bytes@.len() > 0 ==> b.consumed >= 1,
        b.command is None ==> b.consumed == bytes@.len(),
{
    proof {
        lemma_serial_drain_progress(old(term).line@, bytes@);
    }
    let mut out: Vec<u8> = Vec::new();
    let mut consumed: usize = 0;
    proof {
        assert(bytes@.skip(0) =~= bytes@);
        assert(out@ + serial_drain(term.line@, bytes@).output =~= serial_drain(
            term.line@,
            bytes@,
        ).output);
    }
    while consumed < bytes.len()
        invariant
            wf(term),
            consumed <= bytes@.len(),
            ({
                let rest = serial_drain(term.line@, bytes@.skip(consumed as int));
                let all = serial_drain(old(term).line@, bytes@);
                &&& all.line == rest.line
                &&& all.output == out@ + rest.output
                &&& all.command == rest.command
                &&& all.consumed == consumed + rest.consumed
            }),
        decreases bytes@.len() - consumed,
    {
        let ghost line0 = term.line@;
        let ghost rest0 = bytes@.skip(consumed as int);
        let ghost out0 = out@;
        let byte = bytes[consumed];
        proof {
            assert(rest0[0] == byte);
            assert(bytes@.skip(consumed + 1) =~= rest0.drop_first());
        }
        consumed = consumed + 1;
        let cmd = handle_serial_byte(term, byte, &mut out);
        match cmd {
            Some(c) => {
                proof {
                    assert(serial_drain(old(term).line@, bytes@).output =~= out@);
                }
                return InputBatch { consumed, output: out, command: Some(c) };
            },
            None => {
                proof {
                    let e = serial_edit(line0, byte);
                    let rest = serial_drain(e.line, rest0.drop_first());
                    assert(out0 + (e.output + rest.output) =~= out@ + rest.output);
                }
            },
        }
    }
    proof {
        assert(bytes@.skip(consumed as int) =~= Seq::<u8>::empty());
        assert(out@ =~= out@ + Seq::<u8>::empty());
    }
    InputBatch { consumed, output: out, command: None }
}

} // verus!
