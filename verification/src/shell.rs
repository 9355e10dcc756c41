//! The kernel shell: parsing a command line, and the text each command
//! prints.
use vstd::prelude::*;
use vstd::string::StringSliceAdditionalSpecFns;
use crate::format::{decimal_spec, parse_u32, parse_u32_spec, push_bytes, push_decimal, push_str};
use crate::frame_allocator::{FrameError, FrameStats};
use crate::heap::HeapStats;
use crate::scheduler::{ps_header, ps_lines, Scheduler, Task};
use crate::terminal::is_ws;

verus! {

/// A parsed command line.
#[derive(Debug, PartialEq, Eq)]
pub enum Command {
    /// Nothing but white space.
    Empty,
    Help,
    Ticks,
    Ps,
    /// `sleep N` with a valid tick count.
    Sleep(u32),
    /// `sleep` without a valid tick count.
    SleepUsage,
    Mem,
    Preempts,
    Clear,
    /// `say` and the rest of the line after the first white space.
    Say(Vec<u8>),
    Unknown,
}

/// A two-byte UTF-8 white space character: U+0085 or U+00A0.
pub open spec fn ws2(a: u8, b: u8) -> bool {
    a == 0xC2 && (b == 0x85 || b == 0xA0)
}

/// A three-byte UTF-8 white space character: U+1680, U+2000 to U+200A,
/// U+2028, U+2029, U+202F, U+205F or U+3000.
pub open spec fn ws3(a: u8, b: u8, c: u8) -> bool {
    ||| (a == 0xE1 && b == 0x9A && c == 0x80)
    ||| (a == 0xE2 && b == 0x80 && ((0x80 <= c && c <= 0x8A) || c == 0xA8 || c == 0xA9 || c
        == 0xAF))
    ||| (a == 0xE2 && b == 0x81 && c == 0x9F)
    ||| (a == 0xE3 && b == 0x80 && c == 0x80)
}

/// Length in bytes of the white space character (`char::is_whitespace`)
/// encoded at index `i` of `s`, or 0 if there is none.
pub open spec fn ws_len(s: Seq<u8>, i: int) -> nat {
    if 0 <= i < s.len() && is_ws(s[i]) {
        1
    } else if 0 <= i && i + 1 < s.len() && ws2(s[i], s[i + 1]) {
        2
    } else if 0 <= i && i + 2 < s.len() && ws3(s[i], s[i + 1], s[i + 2]) {
        3
    } else {
        0
    }
}

/// Length in bytes of the white space character `s` ends with, or 0.
pub open spec fn ws_end(s: Seq<u8>) -> nat {
    let n = s.len() as int;
    if n >= 1 && is_ws(s[n - 1]) {
        1
    } else if n >= 2 && ws2(s[n - 2], s[n - 1]) {
        2
    } else if n >= 3 && ws3(s[n - 3], s[n - 2], s[n - 1]) {
        3
    } else {
        0
    }
}

/// `s` without leading white space characters.
pub open spec fn utrim_start(s: Seq<u8>) -> Seq<u8>
    decreases s.len(),
{
    if ws_len(s, 0) > 0 {
        utrim_start(s.skip(ws_len(s, 0) as int))
    } else {
        s
    }
}

/// `s` without trailing white space characters.
pub open spec fn utrim_end(s: Seq<u8>) -> Seq<u8>
    decreases s.len(),
{
    if ws_end(s) > 0 {
        utrim_end(s.take(s.len() - ws_end(s)))
    } else {
        s
    }
}

/// `s` without white space characters at either end, as `str::trim`
/// leaves a string.
pub open spec fn utrim(s: Seq<u8>) -> Seq<u8> {
    utrim_end(utrim_start(s))
}

/// Index of the first white space character of `t`, or its length.
pub open spec fn first_ws(t: Seq<u8>) -> nat
    decreases t.len(),
{
    if t.len() == 0 {
        0
    } else if ws_len(t, 0) > 0 {
        0
    } else {
        1 + first_ws(t.drop_first())
    }
}

/// The command name: everything before the first white space character.
pub open spec fn name_spec(t: Seq<u8>) -> Seq<u8> {
    t.take(first_ws(t) as int)
}

/// The arguments: everything after the first white space character (empty
/// if there is none).
pub open spec fn args_spec(t: Seq<u8>) -> Seq<u8> {
    if first_ws(t) < t.len() {
        t.skip((first_ws(t) + ws_len(t, first_ws(t) as int)) as int)
    } else {
        Seq::empty()
    }
}

/// The white space character at `i` is the one at the front of `s.skip(i)`.
proof fn lemma_ws_len_skip(s: Seq<u8>, i: int)
    requires
        0 <= i <= s.len(),
    ensures
        ws_len(s.skip(i), 0) == ws_len(s, i),
{
    let t = s.skip(i);
    if i < s.len() {
        assert(t[0] == s[i]);
    }
    if i + 1 < s.len() {
        assert(t[1] == s[i + 1]);
    }
    if i + 2 < s.len() {
        assert(t[2] == s[i + 2]);
    }
}

proof fn lemma_utrim_start_front(s: Seq<u8>)
    ensures
        ws_len(utrim_start(s), 0) == 0,
    decreases s.len(),
{
    if ws_len(s, 0) > 0 {
        lemma_utrim_start_front(s.skip(ws_len(s, 0) as int));
    }
}

proof fn lemma_utrim_end_prefix(s: Seq<u8>)
    ensures
        utrim_end(s).len() <= s.len(),
        utrim_end(s) == s.take(utrim_end(s).len() as int),
        ws_end(utrim_end(s)) == 0,
    decreases s.len(),
{
    if ws_end(s) > 0 {
        let t = s.take(s.len() - ws_end(s));
        lemma_utrim_end_prefix(t);
        assert(t.take(utrim_end(s).len() as int) =~= s.take(utrim_end(s).len() as int));
    } else {
        assert(s.take(s.len() as int) =~= s);
    }
}

/// Trimming twice is trimming once.
pub proof fn lemma_utrim_idempotent(s: Seq<u8>)
    ensures
        utrim(utrim(s)) == utrim(s),
{
    let x = utrim_start(s);
    let y = utrim_end(x);
    lemma_utrim_start_front(s);
    lemma_utrim_end_prefix(x);
    if y.len() > 0 {
        assert(y[0] == x[0]);
    }
    if y.len() > 1 {
        assert(y[1] == x[1]);
    }
    if y.len() > 2 {
        assert(y[2] == x[2]);
    }
    assert(ws_len(y, 0) == 0);
    assert(utrim_start(y) == y);
    assert(utrim_end(y) == y);
}

/// `r` is what the command line `cmd` means: the line is trimmed and split
/// once at white space into a name and its arguments.
pub open spec fn parsed(r: &Command, cmd: Seq<u8>) -> bool {
    let t = utrim(cmd);
    let name = name_spec(t);
    let args = args_spec(t);
    if t.len() == 0 {
        *r == Command::Empty
    } else if name == "help".spec_bytes() {
        *r == Command::Help
    } else if name == "ticks".spec_bytes() {
        *r == Command::Ticks
    } else if name == "ps".spec_bytes() {
        *r == Command::Ps
    } else if name == "sleep".spec_bytes() {
        match parse_u32_spec(utrim(args)) {
            Some(n) => *r == Command::Sleep(n),
            None => *r == Command::SleepUsage,
        }
    } else if name == "mem".spec_bytes() {
        *r == Command::Mem
    } else if name == "preempts".spec_bytes() {
        *r == Command::Preempts
    } else if name == "clear".spec_bytes() {
        *r == Command::Clear
    } else if name == "say".spec_bytes() {
        r matches Command::Say(a) && a@ == args
    } else {
        *r == Command::Unknown
    }
}

/// A command line means the same as the line without its surrounding
/// white space: `execute(cmd)` and `execute(trim(cmd))` give the same
/// command, and so the same text.
pub proof fn lemma_execute_trimmed(r: &Command, cmd: Seq<u8>)
    ensures
        parsed(r, utrim(cmd)) == parsed(r, cmd),
{
    lemma_utrim_idempotent(cmd);
}

/// `a` holds exactly the bytes of `b`.
fn bytes_eq(a: &[u8], b: &str) -> (r: bool)
    ensures
        r == (a@ == b.spec_bytes()),
{
    let bb = b.as_bytes();
    if a.len() != bb.len() {
        return false;
    }
    let mut i: usize = 0;
    while i < a.len()
        invariant
            i <= a@.len(),
            a@.len() == bb@.len(),
            bb@ == b.spec_bytes(),
            forall|j: int| 0 <= j < i ==> a@[j] == bb@[j],
        decreases a@.len() - i,
    {
        if a[i] != bb[i] {
            return false;
        }
        i = i + 1;
    }
    assert(a@ =~= bb@);
    true
}

/// Bytes `lo..hi` of `s`.
fn slice_copy(s: &Vec<u8>, lo: usize, hi: usize) -> (out: Vec<u8>)
    requires
        lo <= hi <= s@.len(),
    ensures
        out@ == s@.subrange(lo as int, hi as int),
{
    let mut out: Vec<u8> = Vec::new();
    let mut i: usize = lo;
    while i < hi
        invariant
            lo <= i <= hi <= s@.len(),
            out@ == s@.subrange(lo as int, i as int),
        decreases hi - i,
    {
        out.push(s[i]);
        i = i + 1;
        proof {
            assert(out@ =~= s@.subrange(lo as int, i as int));
        }
    }
    out
}

fn is_ws_byte(b: u8) -> (r: bool)
    ensures
        r == is_ws(b),
{
    b == 9u8 || b == 10u8 || b == 11u8 || b == 12u8 || b == 13u8 || b == 32u8
}

fn is_ws2(a: u8, b: u8) -> (r: bool)
    ensures
        r == ws2(a, b),
{
    a == 0xC2u8 && (b == 0x85u8 || b == 0xA0u8)
}

fn is_ws3(a: u8, b: u8, c: u8) -> (r: bool)
    ensures
        r == ws3(a, b, c),
{
    (a == 0xE1u8 && b == 0x9Au8 && c == 0x80u8) || (a == 0xE2u8 && b == 0x80u8 && ((0x80u8 <= c
        && c <= 0x8Au8) || c == 0xA8u8 || c == 0xA9u8 || c == 0xAFu8)) || (a == 0xE2u8 && b
        == 0x81u8 && c == 0x9Fu8) || (a == 0xE3u8 && b == 0x80u8 && c == 0x80u8)
}

/// Length of the white space character at index `i` of `s` (0 if none).
fn ws_len_at(s: &[u8], i: usize) -> (k: usize)
    requires
        i <= s@.len(),
    ensures
        k == ws_len(s@, i as int),
        k <= 3,
        k > 0 ==> i + k <= s@.len(),
{
    let n = s.len();
    if i < n && is_ws_byte(s[i]) {
        1
    } else if n - i > 1 && is_ws2(s[i], s[i + 1]) {
        2
    } else if n - i > 2 && is_ws3(s[i], s[i + 1], s[i + 2]) {
        3
    } else {
        0
    }
}

/// Length of the white space character that the first `b` bytes of `s`
/// end with (0 if none).
fn ws_end_at(s: &[u8], b: usize) -> (k: usize)
    requires
        b <= s@.len(),
    ensures
        k == ws_end(s@.take(b as int)),
{
    let ghost t = s@.take(b as int);
    if b >= 1 && is_ws_byte(s[b - 1]) {
        assert(t[b - 1] == s@[b - 1]);
        1
    } else if b >= 2 && is_ws2(s[b - 2], s[b - 1]) {
        assert(t[b - 1] == s@[b - 1] && t[b - 2] == s@[b - 2]);
        2
    } else if b >= 3 && is_ws3(s[b - 3], s[b - 2], s[b - 1]) {
        assert(t[b - 1] == s@[b - 1] && t[b - 2] == s@[b - 2] && t[b - 3] == s@[b - 3]);
        3
    } else {
        proof {
            if b >= 1 {
                assert(t[b - 1] == s@[b - 1]);
            }
            if b >= 2 {
                assert(t[b - 2] == s@[b - 2]);
            }
            if b >= 3 {
                assert(t[b - 3] == s@[b - 3]);
            }
        }
        0
    }
}

/// `s` without white space characters at either end (see `utrim`).
pub fn trim_command(s: &[u8]) -> (t: Vec<u8>)
    ensures
        t@ == utrim(s@),
{
    let mut a: usize = 0;
    proof {
        assert(s@.skip(0) =~= s@);
    }
    loop
        invariant
            a <= s@.len(),
            utrim_start(s@) == utrim_start(s@.skip(a as int)),
        ensures
            a <= s@.len(),
            utrim_start(s@) == utrim_start(s@.skip(a as int)),
            ws_len(s@.skip(a as int), 0) == 0,
        decreases s@.len() - a,
    {
        let k = ws_len_at(s, a);
        proof {
            lemma_ws_len_skip(s@, a as int);
        }
        if k == 0 {
            break;
        }
        let n = s.len();
        proof {
            assert(s@.skip(a as int).skip(k as int) =~= s@.skip(a + k));
            assert(a + k <= n);
        }
        a = a + k;
    }
    proof {
        assert(utrim_start(s@.skip(a as int)) == s@.skip(a as int));
    }
    let mut head: Vec<u8> = Vec::new();
    let mut i: usize = a;
    while i < s.len()
        invariant
            a <= i <= s@.len(),
            head@ == s@.subrange(a as int, i as int),
        decreases s@.len() - i,
    {
        head.push(s[i]);
        i = i + 1;
        proof {
            assert(head@ =~= s@.subrange(a as int, i as int));
        }
    }
    proof {
        assert(head@ =~= s@.skip(a as int));
        assert(head@.take(head@.len() as int) =~= head@);
    }
    let mut b: usize = head.len();
    loop
        invariant
            b <= head@.len(),
            head@ == utrim_start(s@),
            utrim_end(head@) == utrim_end(head@.take(b as int)),
        ensures
            b <= head@.len(),
            head@ == utrim_start(s@),
            utrim_end(head@) == utrim_end(head@.take(b as int)),
            ws_end(head@.take(b as int)) == 0,
        decreases b,
    {
        let k = ws_end_at(head.as_slice(), b);
        if k == 0 {
            break;
        }
        proof {
            assert(head@.take(b as int).take(b - k) =~= head@.take(b - k));
        }
        b = b - k;
    }
    let mut t: Vec<u8> = Vec::new();
    let mut j: usize = 0;
    while j < b
        invariant
            j <= b <= head@.len(),
            t@ == head@.take(j as int),
        decreases b - j,
    {
        t.push(head[j]);
        j = j + 1;
        proof {
            assert(t@ =~= head@.take(j as int));
        }
    }
    t
}

/// Parses a command line (see `parsed`).
pub fn execute(cmd: &[u8]) -> (r: Command)
    ensures
        parsed(&r, cmd@),
{
    let t = trim_command(cmd);
    if t.len() == 0 {
        return Command::Empty;
    }
    let mut k: usize = 0;
    proof {
        assert(t@.skip(0) =~= t@);
    }
    loop
        invariant
            k <= t@.len(),
            first_ws(t@) == k + first_ws(t@.skip(k as int)),
        ensures
            k <= t@.len(),
            first_ws(t@) == k + first_ws(t@.skip(k as int)),
            k < t@.len() ==> ws_len(t@, k as int) > 0,
        decreases t@.len() - k,
    {
        if k >= t.len() {
            break;
        }
        let w = ws_len_at(t.as_slice(), k);
        proof {
            lemma_ws_len_skip(t@, k as int);
        }
        if w > 0 {
            break;
        }
        proof {
            assert(t@.skip(k as int).drop_first() =~= t@.skip(k + 1));
        }
        k = k + 1;
    }
    let w = ws_len_at(t.as_slice(), k);
    proof {
        lemma_ws_len_skip(t@, k as int);
        if k == t@.len() {
            assert(t@.skip(k as int).len() == 0);
        }
        assert(first_ws(t@.skip(k as int)) == 0);
    }
    let name = slice_copy(&t, 0, k);
    let args = if k < t.len() {
        slice_copy(&t, k + w, t.len())
    } else {
        Vec::new()
    };
    proof {
        assert(name@ =~= name_spec(t@));
        assert(args@ =~= args_spec(t@));
    }
    let n = name.as_slice();
    if bytes_eq(n, "help") {
        Command::Help
    } else if bytes_eq(n, "ticks") {
        Command::Ticks
    } else if bytes_eq(n, "ps") {
        Command::Ps
    } else if bytes_eq(n, "sleep") {
        let a = trim_command(args.as_slice());
        match parse_u32(a.as_slice()) {
            Some(ticks) => Command::Sleep(ticks),
            None => Command::SleepUsage,
        }
    } else if bytes_eq(n, "mem") {
        Command::Mem
    } else if bytes_eq(n, "preempts") {
        Command::Preempts
    } else if bytes_eq(n, "clear") {
        Command::Clear
    } else if bytes_eq(n, "say") {
        Command::Say(args)
    } else {
        Command::Unknown
    }
}

/// The help text.
pub open spec fn help_text() -> Seq<u8> {
    "mem to print frame and heap usage\nticks to print the number of ticks\nps to list tasks\nsleep N to block for N timer ticks\nclear to clear the screen\nhelp to print this help message\n".spec_bytes()
}

/// The help text.
pub fn help() -> (out: Vec<u8>)
    ensures
        out@ == help_text(),
{
    let mut out: Vec<u8> = Vec::new();
    push_str(
        &mut out,
        "mem to print frame and heap usage\nticks to print the number of ticks\nps to list tasks\nsleep N to block for N timer ticks\nclear to clear the screen\nhelp to print this help message\n",
    );
    out
}

/// The task table of `sched`, as the `ps` command prints it.
pub fn ps(sched: &Scheduler) -> (out: Vec<u8>)
    ensures
        out@ == ps_header() + ps_lines(sched@.tasks),
{
    crate::scheduler::print_ps(sched)
}

/// Whole KiB in `bytes` bytes.
pub fn bytes_to_kib(bytes: usize) -> (kib: usize)
    ensures
        kib == bytes / 1024,
{
    bytes / 1024
}

/// The frame line of `mem`.
pub open spec fn mem_frames_text(frames: Result<FrameStats, FrameError>) -> Seq<u8> {
    match frames {
        Ok(f) => "frames: total=".spec_bytes() + decimal_spec(f.total as nat) + " used=".spec_bytes()
            + decimal_spec(f.used as nat) + " free=".spec_bytes() + decimal_spec(f.free as nat)
            + "\n".spec_bytes(),
        Err(_) => "frames: unavailable\n".spec_bytes(),
    }
}

/// The heap line of `mem`, in whole KiB.
pub open spec fn mem_heap_text(heap: HeapStats) -> Seq<u8> {
    "heap:   used=".spec_bytes() + decimal_spec((heap.used / 1024) as nat) + " KiB free=".spec_bytes()
        + decimal_spec((heap.free / 1024) as nat) + " KiB total=".spec_bytes() + decimal_spec(
        (heap.total / 1024) as nat,
    ) + " KiB\n".spec_bytes()
}

/// What `mem` prints: frame usage (or that it is unavailable), then heap
/// usage in KiB.
pub fn mem(frames: Result<FrameStats, FrameError>, heap: HeapStats) -> (out: Vec<u8>)
    ensures
        out@ == mem_frames_text(frames) + mem_heap_text(heap),
{
    let mut out: Vec<u8> = Vec::new();
    match frames {
        Ok(f) => {
            push_str(&mut out, "frames: total=");
            push_decimal(&mut out, f.total as u64);
            let ghost a = out@;
            push_str(&mut out, " used=");
            push_decimal(&mut out, f.used as u64);
            let ghost b = out@;
            push_str(&mut out, " free=");
            push_decimal(&mut out, f.free as u64);
            push_str(&mut out, "\n");
            proof {
                assert(a =~= "frames: total=".spec_bytes() + decimal_spec(f.total as nat));
                assert(b =~= a + " used=".spec_bytes() + decimal_spec(f.used as nat));
                assert(out@ =~= b + " free=".spec_bytes() + decimal_spec(f.free as nat)
                    + "\n".spec_bytes());
            }
        },
        Err(_) => {
            push_str(&mut out, "frames: unavailable\n");
            proof {
                assert(out@ =~= "frames: unavailable\n".spec_bytes());
            }
        },
    }
    let ghost c = out@;
    push_str(&mut out, "heap:   used=");
    push_decimal(&mut out, bytes_to_kib(heap.used) as u64);
    let ghost d = out@;
    push_str(&mut out, " KiB free=");
    push_decimal(&mut out, bytes_to_kib(heap.free) as u64);
    let ghost e = out@;
    push_str(&mut out, " KiB total=");
    push_decimal(&mut out, bytes_to_kib(heap.total) as u64);
    push_str(&mut out, " KiB\n");
    proof {
        assert(d =~= c + "heap:   used=".spec_bytes() + decimal_spec((heap.used / 1024) as nat));
        assert(e =~= d + " KiB free=".spec_bytes() + decimal_spec((heap.free / 1024) as nat));
        assert(out@ =~= e + " KiB total=".spec_bytes() + decimal_spec((heap.total / 1024) as nat)
            + " KiB\n".spec_bytes());
        assert(out@ =~= c + mem_heap_text(heap));
    }
    out
}

/// What `say` prints: the text and a line break.
pub fn say(text: &[u8]) -> (out: Vec<u8>)
    ensures
        out@ == text@ + "\n".spec_bytes(),
{
    let mut out: Vec<u8> = Vec::new();
    push_bytes(&mut out, text);
    push_str(&mut out, "\n");
    proof {
        assert(out@ =~= text@ + "\n".spec_bytes());
    }
    out
}

/// What `ticks` prints at tick `now`.
pub fn ticks(now: u64) -> (out: Vec<u8>)
    ensures
        out@ == "ticks: ".spec_bytes() + decimal_spec(now as nat) + "\n".spec_bytes(),
{
    let mut out: Vec<u8> = Vec::new();
    push_str(&mut out, "ticks: ");
    push_decimal(&mut out, now);
    push_str(&mut out, "\n");
    proof {
        assert(out@ =~= "ticks: ".spec_bytes() + decimal_spec(now as nat) + "\n".spec_bytes());
    }
    out
}

/// What `sleep N` prints before it blocks (after waking it prints
/// `woke up`).
pub fn sleep_ticks(ticks: u32) -> (out: Vec<u8>)
    ensures
        out@ == "sleeping ".spec_bytes() + decimal_spec(ticks as nat) + " ticks...\n".spec_bytes(),
{
    let mut out: Vec<u8> = Vec::new();
    push_str(&mut out, "sleeping ");
    push_decimal(&mut out, ticks as u64);
    push_str(&mut out, " ticks...\n");
    proof {
        assert(out@ =~= "sleeping ".spec_bytes() + decimal_spec(ticks as nat)
            + " ticks...\n".spec_bytes());
    }
    out
}

/// What `clear` prints: fifty line breaks.
pub fn clear() -> (out: Vec<u8>)
    ensures
        out@ == Seq::new(50, |i: int| 10u8),
{
    let mut out: Vec<u8> = Vec::new();
    let mut i: usize = 0;
    while i < 50
        invariant
            i <= 50,
            out@ == Seq::new(i as nat, |j: int| 10u8),
        decreases 50 - i,
    {
        out.push(10u8);
        i = i + 1;
        proof {
            assert(out@ =~= Seq::new(i as nat, |j: int| 10u8));
        }
    }
    out
}


/// What `preempts` prints: the number of preemptions taken in the timer
/// interrupt, on a line of its own.
pub fn preempts(count: u64) -> (out: Vec<u8>)
    ensures
        out@ == decimal_spec(count as nat) + "\n".spec_bytes(),
{
    let mut out: Vec<u8> = Vec::new();
    push_decimal(&mut out, count);
    push_str(&mut out, "\n");
    proof {
        assert(out@ =~= decimal_spec(count as nat) + "\n".spec_bytes());
    }
    out
}

/// What `sleep` prints without a valid tick count.
pub fn sleep_usage() -> (out: Vec<u8>)
    ensures
        out@ == "usage: sleep <ticks>\n".spec_bytes(),
{
    let mut out: Vec<u8> = Vec::new();
    push_str(&mut out, "usage: sleep <ticks>\n");
    out
}

/// What an unknown command prints.
pub fn unknown() -> (out: Vec<u8>)
    ensures
        out@ == "Unknown command\n".spec_bytes(),
{
    let mut out: Vec<u8> = Vec::new();
    push_str(&mut out, "Unknown command\n");
    out
}

/// What the shell reads to answer a command: frame and heap usage, the
/// current tick, and the preemptions taken in the timer interrupt.
pub struct ShellContext {
    pub frames: Result<FrameStats, FrameError>,
    pub heap: HeapStats,
    pub ticks: u64,
    pub preempts: u64,
}

/// The text `sleep N` prints before it blocks.
pub open spec fn sleeping_text(n: u32) -> Seq<u8> {
    "sleeping ".spec_bytes() + decimal_spec(n as nat) + " ticks...\n".spec_bytes()
}

/// The text command `c` prints; for `sleep N`, what it prints before it
/// blocks. `tasks` is the task table at the time.
pub open spec fn reply_spec(c: Command, ctx: ShellContext, tasks: Seq<Task>) -> Seq<u8> {
    match c {
        Command::Empty => Seq::empty(),
        Command::Help => help_text(),
        Command::Ticks => "ticks: ".spec_bytes() + decimal_spec(ctx.ticks as nat) + "\n".spec_bytes(),
        Command::Ps => ps_header() + ps_lines(tasks),
        Command::Sleep(n) => sleeping_text(n),
        Command::SleepUsage => "usage: sleep <ticks>\n".spec_bytes(),
        Command::Mem => mem_frames_text(ctx.frames) + mem_heap_text(ctx.heap),
        Command::Preempts => decimal_spec(ctx.preempts as nat) + "\n".spec_bytes(),
        Command::Clear => Seq::new(50, |i: int| 10u8),
        Command::Say(a) => a@ + "\n".spec_bytes(),
        Command::Unknown => "Unknown command\n".spec_bytes(),
    }
}

/// The text command `cmd` prints (for `sleep N`, what it prints before it
/// blocks).
pub fn reply(cmd: &Command, ctx: &ShellContext, sched: &Scheduler) -> (out: Vec<u8>)
    ensures
        out@ == reply_spec(*cmd, *ctx, sched@.tasks),
{
    match cmd {
        Command::Empty => Vec::new(),
        Command::Help => help(),
        Command::Ticks => ticks(ctx.ticks),
        Command::Ps => ps(sched),
        Command::Sleep(n) => sleep_ticks(*n),
        Command::SleepUsage => sleep_usage(),
        Command::Mem => mem(ctx.frames, ctx.heap),
        Command::Preempts => preempts(ctx.preempts),
        Command::Clear => clear(),
        Command::Say(a) => say(a.as_slice()),
        Command::Unknown => unknown(),
    }
}

/// How the shell answers a submitted line: the parsed command, the text to
/// write, the ticks to sleep for if the command sleeps, and the text to
/// write once it wakes. The prompt `"> "` ends the answer.
pub struct LineReply {
    pub command: Command,
    pub before: Vec<u8>,
    pub sleep: Option<u32>,
    pub after: Vec<u8>,
}

/// The prompt written after each command line.
pub open spec fn prompt() -> Seq<u8> {
    "> ".spec_bytes()
}

/// `r` answers the line `line`: the command is its parse; a sleeping
/// command prints its first line, sleeps, then prints `woke up` and the
/// prompt; any other command prints its text and the prompt.
pub open spec fn line_reply_spec(r: &LineReply, line: Seq<u8>, ctx: ShellContext, tasks: Seq<Task>) -> bool {
    &&& parsed(&r.command, line)
    &&& match r.command {
        Command::Sleep(n) => {
            &&& r.before@ == sleeping_text(n)
            &&& r.sleep == Some(n)
            &&& r.after@ == "woke up\n".spec_bytes() + prompt()
        },
        _ => {
            &&& r.before@ == reply_spec(r.command, ctx, tasks) + prompt()
            &&& r.sleep is None
            &&& r.after@ == Seq::<u8>::empty()
        },
    }
}

/// Answers a submitted command line (see `line_reply_spec`).
pub fn run_line(line: &[u8], ctx: &ShellContext, sched: &Scheduler) -> (r: LineReply)
    ensures
        line_reply_spec(&r, line@, *ctx, sched@.tasks),
{
    let command = execute(line);
    match command {
        Command::Sleep(n) => {
            let before = sleep_ticks(n);
            let mut after: Vec<u8> = Vec::new();
            push_str(&mut after, "woke up\n");
            push_str(&mut after, "> ");
            proof {
                assert(after@ =~= "woke up\n".spec_bytes() + prompt());
            }
            LineReply { command, before, sleep: Some(n), after }
        },
        _ => {
            let mut before = reply(&command, ctx, sched);
            let ghost text = before@;
            push_str(&mut before, "> ");
            proof {
                assert(before@ =~= text + prompt());
            }
            LineReply { command, before, sleep: None, after: Vec::new() }
        },
    }
}

} // verus!
