//! The `process` module of templates: run a program with an argument vector.
//!
//! No shell is involved. The call is bounded in time, and what it captures is
//! bounded in size. Times are microseconds.

use vstd::prelude::*;
use crate::path;
use crate::text;

verus! {

/// Captured output is held in memory, so it is bounded. Output past this is
/// dropped while the pipe keeps draining.
pub const MAX_CAPTURE: usize = 8_388_608;

/// Polling backs off from this to [`POLL_MAX_US`].
pub const POLL_MIN_US: u64 = 50;

pub const POLL_MAX_US: u64 = 5_000;

/// A program and its arguments.
pub struct Command {
    pub program: String,
    pub args: Vec<String>,
}

/// Splits an argument vector; it needs a program to run.
pub fn split_argv(argv: Vec<String>) -> (r: Result<Command, String>)
    ensures
        if argv@.len() == 0 {
            r is Err && r->Err_0@ == "process.run: needs a program to run"@
        } else {
            r is Ok && r->Ok_0.program == argv@[0] && r->Ok_0.args@ == argv@.skip(1)
        },
{
    let mut args = argv;
    if args.len() == 0 {
        return Err("process.run: needs a program to run".to_string());
    }
    let program = args.remove(0);
    assert(args@ =~= argv@.skip(1));
    Ok(Command { program, args })
}

/// What is kept of some output: its first bytes.
pub open spec fn captured(kept: Seq<u8>, chunk: Seq<u8>) -> Seq<u8> {
    let all = kept + chunk;
    if all.len() <= MAX_CAPTURE {
        all
    } else {
        all.take(MAX_CAPTURE as int)
    }
}

/// Takes in a chunk of output, up to the capture limit.
pub fn capture(kept: &mut Vec<u8>, chunk: &[u8])
    requires
        old(kept)@.len() <= MAX_CAPTURE,
    ensures
        final(kept)@ == captured(old(kept)@, chunk@),
        final(kept)@.len() <= MAX_CAPTURE,
{
    let ghost before = kept@;
    let room: usize = MAX_CAPTURE - kept.len();
    let n: usize = if chunk.len() < room {
        chunk.len()
    } else {
        room
    };
    let part = path::slice_of(chunk, 0, n);
    kept.extend_from_slice(part.as_slice());
    assert(kept@ =~= captured(before, chunk@));
}

/// What was captured is always the beginning of what came out, however it was
/// chopped up.
pub proof fn law_capture_keeps_the_beginning(kept: Seq<u8>, a: Seq<u8>, b: Seq<u8>)
    requires
        kept.len() <= MAX_CAPTURE,
    ensures
        captured(captured(kept, a), b) == captured(kept, a + b),
        kept.is_prefix_of(captured(kept, a)),
{
    assert(captured(captured(kept, a), b) =~= captured(kept, a + b));
    assert(kept =~= captured(kept, a).take(kept.len() as int));
}

/// What to do while a program runs.
#[derive(Clone, Copy, PartialEq, Eq, Debug, Structural)]
pub enum Poll {
    /// It exited.
    Exited,
    /// Its time is up.
    Kill,
    /// Sleep this long, then look again.
    Sleep(u64),
}

/// One look at a running program.
pub fn poll(exited: bool, now: u64, deadline: u64, wait: u64) -> (r: Poll)
    ensures
        r == (if exited {
            Poll::Exited
        } else if now >= deadline {
            Poll::Kill
        } else {
            Poll::Sleep(wait)
        }),
{
    if exited {
        Poll::Exited
    } else if now >= deadline {
        Poll::Kill
    } else {
        Poll::Sleep(wait)
    }
}

/// The pause after a pause: twice as long, up to a maximum.
pub fn next_wait(wait: u64) -> (r: u64)
    ensures
        r == (if 2 * wait < POLL_MAX_US {
            (2 * wait) as u64
        } else {
            POLL_MAX_US
        }),
        wait < 2_500 ==> r == 2 * wait,
        wait >= 2_500 ==> r == 5_000,
        wait >= POLL_MIN_US ==> r >= 50,
{
    if wait >= POLL_MAX_US / 2 {
        POLL_MAX_US
    } else {
        wait * 2
    }
}

/// How a program ended.
pub enum Exit {
    /// It never started: a missing program is a different answer from one that ran
    /// and failed.
    NotStarted(String),
    /// It was stopped when its time was up.
    TimedOut,
    /// It ended by itself, with a code unless a signal ended it.
    Done { success: bool, code: Option<i32> },
}

/// What a template gets to see.
pub struct ProcessResult {
    pub ok: bool,
    pub started: bool,
    pub timed_out: bool,
    pub code: Option<i32>,
    pub stdout: String,
    pub stderr: String,
    pub error: Option<String>,
}

/// The result of a run.
pub fn process_result(program: &str, exit: Exit, stdout: &[u8], stderr: &[u8]) -> (r: ProcessResult)
    ensures
        match exit {
            Exit::NotStarted(e) => {
                &&& !r.ok && !r.started && !r.timed_out
                &&& r.code is None
                &&& r.stdout@.len() == 0
                &&& r.stderr@.len() == 0
                &&& r.error is Some
                &&& r.error->0@ == program@ + ": "@ + e@
            },
            Exit::TimedOut => {
                &&& !r.ok && r.started && r.timed_out
                &&& r.code is None
                &&& r.stdout@ == text::lossy_utf8(stdout@)
                &&& r.stderr@ == text::lossy_utf8(stderr@)
                &&& r.error is None
            },
            Exit::Done { success, code } => {
                &&& r.ok == success && r.started && !r.timed_out
                &&& r.code == code
                &&& r.stdout@ == text::lossy_utf8(stdout@)
                &&& r.stderr@ == text::lossy_utf8(stderr@)
                &&& r.error is None
            },
        },
{
    match exit {
        Exit::NotStarted(e) => ProcessResult {
            ok: false,
            started: false,
            timed_out: false,
            code: None,
            stdout: String::new(),
            stderr: String::new(),
            error: Some(text::join3(program, ": ", e.as_str())),
        },
        Exit::TimedOut => ProcessResult {
            ok: false,
            started: true,
            timed_out: true,
            code: None,
            stdout: text::lossy(stdout),
            stderr: text::lossy(stderr),
            error: None,
        },
        Exit::Done { success, code } => ProcessResult {
            ok: success,
            started: true,
            timed_out: false,
            code,
            stdout: text::lossy(stdout),
            stderr: text::lossy(stderr),
            error: None,
        },
    }
}

/// Output of up to eight mebibytes is kept whole, and of more the first eight.
pub proof fn law_output_is_kept_up_to_the_limit(kept: Seq<u8>, chunk: Seq<u8>)
    ensures
        kept.len() + chunk.len() <= 8_388_608 ==> captured(kept, chunk) == kept + chunk,
        kept.len() + chunk.len() > 8_388_608 ==> captured(kept, chunk) == (kept + chunk).take(
            8_388_608,
        ),
{
}

} // verus!
