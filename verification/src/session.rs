//! A session with OpenOCD: starting it, talking to it, and leaving the target as it was found.
use crate::error;
use crate::error::{AppError, Failure, SessionError, Trouble};
use crate::openocd;
use crate::openocd::{
    format_log_tail, openocd_args, openocd_start_error, retry_delay, OpenOcdOptions,
};
use crate::tcl;
use crate::tcl::{
    narrow, parse_memory, parse_run_response, rpc_frame, rpc_wrapper, text_from, RPC_EOM,
};
use crate::text;
use crate::text::{cat, cat3, cat4, cat5, decimal_text, hex_text, join_from, same, trim};
use crate::walk;
use crate::walk::{lift, Halt, Op, Reply, Request, Stop, Trail, Walk};
use vstd::prelude::*;
use vstd::utf8::*;

verus! {

/// The last lines of the log.
pub open spec fn log_note(t: Trail, count: nat) -> (Trail, Result<Seq<char>, Halt>) {
    let (t, reply) = walk::ask(t, Request::Log);
    (
        t,
        match reply {
            Err(halt) => Err(halt),
            Ok(Reply::Lines(lines)) => Ok(openocd::log_tail(text::views(lines@), count)),
            Ok(_) => Err(Halt::Stray),
        },
    )
}

/// Trouble that a new connection can help, told with the last lines of the log.
pub open spec fn link_trouble(t: Trail, message: Seq<char>, count: nat) -> (Trail, Halt) {
    let (t, tail) = log_note(t, count);
    (
        t,
        match tail {
            Err(halt) => halt,
            Ok(tail) => Halt::Link(error::retryable(message + tail)),
        },
    )
}

/// Reads the last lines of the log.
fn log_lines(walk: &mut Walk, count: usize) -> (tail: Result<String, Stop>)
    ensures
        (final(walk)@, walk::seen(tail)) == log_note(old(walk)@, count as nat),
{
    match walk.ask(Op::Log)? {
        Reply::Lines(lines) => Ok(format_log_tail(lines, count)),
        _ => Err(Stop::Stray),
    }
}

/// Tells of trouble, with the last lines of the log.
fn link_error(walk: &mut Walk, message: &str, count: usize) -> (stop: Stop)
    ensures
        (final(walk)@, stop@) == link_trouble(old(walk)@, message@, count as nat),
{
    match log_lines(walk, count) {
        Err(stop) => stop,
        Ok(tail) => Stop::Link(SessionError::retryable(cat(message, tail.as_str()).as_str())),
    }
}

/// The message for a failed exchange.
pub open spec fn lost_link(reason: Seq<char>) -> Seq<char> {
    "lost the link to OpenOCD ("@ + reason + ")"@
}

/// A reply of OpenOCD of which the bytes `sofar` have come: it goes on until its last byte is the
/// end byte.
pub open spec fn received(t: Trail, sofar: Seq<u8>) -> (Trail, Result<Seq<char>, Halt>)
    decreases t.left(),
{
    match walk::ask_bytes(t, Request::Receive) {
        (u, Err(halt)) => (u, Err(halt)),
        (u, Ok(Err(reason))) => {
            let (u, halt) = link_trouble(u, lost_link(reason), 8);
            (u, Err(halt))
        },
        (u, Ok(Ok(bytes))) => {
            let all = sofar + bytes;
            if bytes.len() == 0 {
                let (u, halt) = link_trouble(u, "OpenOCD closed the connection"@, 8);
                (u, Err(halt))
            } else if all.last() == RPC_EOM {
                (u, Ok(tcl::reply_text(all.drop_last())))
            } else {
                received(u, all)
            }
        },
    }
}

/// A script is sent, and OpenOCD replies.
#[verifier::opaque]
pub open spec fn exchange(t: Trail, script: Seq<char>) -> (Trail, Result<Seq<char>, Halt>) {
    match walk::ask_done(t, Request::Send(tcl::frame(script))) {
        (u, Err(halt)) => (u, Err(halt)),
        (u, Ok(Err(reason))) => {
            let (u, halt) = link_trouble(u, lost_link(reason), 8);
            (u, Err(halt))
        },
        (u, Ok(Ok(()))) => received(u, Seq::empty()),
    }
}

/// Waits for a whole reply of OpenOCD.
fn receive(walk: &mut Walk) -> (reply: Result<String, Stop>)
    ensures
        (final(walk)@, walk::seen(reply)) == received(old(walk)@, Seq::empty()),
{
    let mut output: Vec<u8> = Vec::new();
    let ghost begin = walk@;
    loop
        invariant
            begin == old(walk)@,
            received(begin, Seq::empty()) == received(walk@, output@),
        decreases walk@.left(),
    {
        let ghost before = walk@;
        let ghost sofar = output@;
        match walk.bytes(Op::Receive)? {
            Err(reason) => {
                let message = cat3("lost the link to OpenOCD (", reason.as_str(), ")");
                return Err(link_error(walk, message.as_str(), 8));
            },
            Ok(bytes) => {
                if bytes.len() == 0 {
                    return Err(link_error(walk, "OpenOCD closed the connection", 8));
                }
                output.extend_from_slice(bytes.as_slice());
                assert(output@ =~= sofar + bytes@);
                let last: usize = output.len() - 1;
                if output[last] == RPC_EOM {
                    output.truncate(last);
                    assert(output@ =~= (sofar + bytes@).drop_last());
                    return Ok(text_from(output.as_slice()));
                }
            },
        }
    }
}

/// Sends a script and waits for the reply.
pub fn rpc(walk: &mut Walk, script: &str) -> (reply: Result<String, Stop>)
    ensures
        (final(walk)@, walk::seen(reply)) == exchange(old(walk)@, script@),
{
    reveal(exchange);
    match walk.done(Op::Send(rpc_frame(script)))? {
        Err(reason) => {
            let message = cat3("lost the link to OpenOCD (", reason.as_str(), ")");
            Err(link_error(walk, message.as_str(), 8))
        },
        Ok(()) => receive(walk),
    }
}

/// The output of a command, or the trouble with it.
#[verifier::opaque]
pub open spec fn run_link(t: Trail, tcl: Seq<char>) -> (Trail, Result<Seq<char>, Halt>) {
    match exchange(t, tcl::wrapper(tcl)) {
        (u, Err(halt)) => (u, Err(halt)),
        (u, Ok(raw)) => match tcl::run_response(raw, tcl) {
            Ok(output) => (u, Ok(output)),
            Err(trouble) => (u, Err(Halt::Link(trouble))),
        },
    }
}

/// Runs a command.
pub fn run_inner(walk: &mut Walk, tcl: &str) -> (output: Result<String, Stop>)
    ensures
        (final(walk)@, walk::seen(output)) == run_link(old(walk)@, tcl@),
{
    reveal(run_link);
    let raw = rpc(walk, rpc_wrapper(tcl).as_str())?;
    match parse_run_response(raw.as_str(), tcl) {
        Ok(output) => Ok(output),
        Err(trouble) => Err(Stop::Link(trouble)),
    }
}

/// The value of an expression, or the trouble with it.
#[verifier::opaque]
pub open spec fn value_link(t: Trail, expression: Seq<char>) -> (Trail, Result<Seq<char>, Halt>) {
    match exchange(t, expression) {
        (u, Err(halt)) => (u, Err(halt)),
        (u, Ok(raw)) => (u, Ok(text::trimmed(raw))),
    }
}

/// Reads the value of an expression.
pub fn value_inner(walk: &mut Walk, expression: &str) -> (value: Result<String, Stop>)
    ensures
        (final(walk)@, walk::seen(value)) == value_link(old(walk)@, expression@),
{
    reveal(value_link);
    let raw = rpc(walk, expression)?;
    Ok(trim(raw.as_str()))
}

/// Trouble on the link is a failure of the command.
pub open spec fn failed(halt: Halt) -> Halt {
    match halt {
        Halt::Link(trouble) => Halt::Fail(Failure::Runtime(trouble.message)),
        _ => halt,
    }
}

/// Trouble on the link is a failure of the command.
pub open spec fn failing<T>(result: Result<T, Halt>) -> Result<T, Halt> {
    match result {
        Ok(value) => Ok(value),
        Err(halt) => Err(failed(halt)),
    }
}

/// Takes trouble on the link for a failure of the command.
fn fail_on_link<T>(result: Result<T, Stop>) -> (outcome: Result<T, Stop>)
    ensures
        match result {
            Ok(value) => outcome == Ok::<T, Stop>(value),
            Err(stop) => outcome is Err && outcome->Err_0@ == failed(stop@),
        },
{
    match result {
        Err(Stop::Link(error)) => Err(Stop::Fail(AppError::Runtime(error.message))),
        result => result,
    }
}

/// The output of a command, or its failure.
#[verifier::opaque]
pub open spec fn run_of(t: Trail, tcl: Seq<char>) -> (Trail, Result<Seq<char>, Halt>) {
    let (u, output) = run_link(t, tcl);
    (u, failing(output))
}

/// Runs a command.
pub fn run(walk: &mut Walk, tcl: &str) -> (output: Result<String, Stop>)
    ensures
        (final(walk)@, walk::seen(output)) == run_of(old(walk)@, tcl@),
{
    reveal(run_of);
    let output = run_inner(walk, tcl);
    fail_on_link(output)
}

/// The value of an expression, or the failure to read it.
#[verifier::opaque]
pub open spec fn value_of(t: Trail, expression: Seq<char>) -> (Trail, Result<Seq<char>, Halt>) {
    let (u, value) = value_link(t, expression);
    (u, failing(value))
}

/// Reads the value of an expression.
pub fn value(walk: &mut Walk, expression: &str) -> (value: Result<String, Stop>)
    ensures
        (final(walk)@, walk::seen(value)) == value_of(old(walk)@, expression@),
{
    reveal(value_of);
    let value = value_inner(walk, expression);
    fail_on_link(value)
}

/// The request for `count` values of `width` bits.
pub open spec fn memory_request(address: u32, width: nat, count: nat) -> Seq<char> {
    "read_memory "@ + text::hex(address as nat) + " "@ + text::decimal(width) + " "@ + text::decimal(
        count,
    )
}

/// The values in memory.
#[verifier::opaque]
pub open spec fn memory_of(t: Trail, address: u32, width: nat, count: nat) -> (
    Trail,
    Result<Seq<u32>, Halt>,
) {
    match value_of(t, memory_request(address, width, count)) {
        (u, Err(halt)) => (u, Err(halt)),
        (u, Ok(reply)) => (u, walk::lifted(tcl::memory_values(reply, count))),
    }
}

/// Reads values from memory.
pub fn read_memory(walk: &mut Walk, address: u32, width: u8, count: usize) -> (values: Result<
    Vec<u32>,
    Stop,
>)
    ensures
        (final(walk)@, walk::seen(values)) == memory_of(
            old(walk)@,
            address,
            width as nat,
            count as nat,
        ),
        values matches Ok(values) ==> values@.len() == count,
{
    reveal(memory_of);
    let mut request = cat4(
        "read_memory ",
        hex_text(address as u64).as_str(),
        " ",
        decimal_text(width as u64).as_str(),
    );
    request.append(" ");
    request.append(decimal_text(count as u64).as_str());
    let reply = value(walk, request.as_str())?;
    lift(parse_memory(reply.as_str(), count))
}

/// Reads words from memory.
pub fn read32(walk: &mut Walk, address: u32, count: usize) -> (words: Result<Vec<u32>, Stop>)
    ensures
        (final(walk)@, walk::seen(words)) == memory_of(old(walk)@, address, 32, count as nat),
        words matches Ok(words) ==> words@.len() == count,
{
    read_memory(walk, address, 32, count)
}

/// The bytes in memory.
#[verifier::opaque]
pub open spec fn bytes_of(t: Trail, address: u32, count: nat) -> (Trail, Result<Seq<u8>, Halt>) {
    match memory_of(t, address, 8, count) {
        (u, Err(halt)) => (u, Err(halt)),
        (u, Ok(values)) => (u, walk::lifted(tcl::byte_values(values))),
    }
}

/// Reads bytes from memory, at any address.
pub fn read8(walk: &mut Walk, address: u32, count: usize) -> (bytes: Result<Vec<u8>, Stop>)
    ensures
        (final(walk)@, walk::seen(bytes)) == bytes_of(old(walk)@, address, count as nat),
        bytes matches Ok(bytes) ==> bytes@.len() == count,
{
    reveal(bytes_of);
    let values = read_memory(walk, address, 8, count)?;
    lift(narrow(&values))
}

/// Words in hexadecimal.
pub open spec fn hex_words(words: Seq<u32>) -> Seq<Seq<char>> {
    words.map_values(|word: u32| text::hex(word as nat))
}

/// The command that writes words.
pub open spec fn write_request(address: u32, words: Seq<u32>) -> Seq<char> {
    "write_memory "@ + text::hex(address as nat) + " 32 {"@ + text::joined(hex_words(words), " "@)
        + "}"@
}

/// Words are written to memory.
#[verifier::opaque]
pub open spec fn written(t: Trail, address: u32, words: Seq<u32>) -> (Trail, Result<(), Halt>) {
    match run_of(t, write_request(address, words)) {
        (u, Err(halt)) => (u, Err(halt)),
        (u, Ok(_)) => (u, Ok(())),
    }
}

/// Writes words to memory.
pub fn write32(walk: &mut Walk, address: u32, words: &[u32]) -> (outcome: Result<(), Stop>)
    ensures
        (final(walk)@, walk::seen(outcome)) == written(old(walk)@, address, words@),
{
    reveal(written);
    let mut shown: Vec<String> = Vec::new();
    let mut i: usize = 0;
    while i < words.len()
        invariant
            i <= words@.len(),
            text::views(shown@) == hex_words(words@.take(i as int)),
        decreases words@.len() - i,
    {
        let ghost before = shown@;
        shown.push(hex_text(words[i] as u64));
        i += 1;
        proof {
            assert(text::views(shown@) =~= text::views(before).push(
                text::hex(words@[i - 1] as nat),
            ));
            assert(hex_words(words@.take(i as int)) =~= hex_words(words@.take(i - 1)).push(
                text::hex(words@[i - 1] as nat),
            ));
        }
    }
    proof {
        assert(words@.take(i as int) =~= words@);
        assert(shown@.skip(0) =~= shown@);
    }
    let command = cat5(
        "write_memory ",
        hex_text(address as u64).as_str(),
        " 32 {",
        join_from(&shown, 0, " ").as_str(),
        "}",
    );
    let _ = run(walk, command.as_str())?;
    Ok(())
}

/// What a session must know to leave the target as it was found.
#[derive(Debug)]
pub struct Session {
    /// The state of the target when the session began.
    pub entry_state: String,
    /// Whether the target is to be resumed at the end.
    pub resume_on_drop: bool,
}

/// What a [`Session`] says.
pub struct Entry {
    pub state: Seq<char>,
    pub resume: bool,
}

impl View for Session {
    type V = Entry;

    open spec fn view(&self) -> Entry {
        Entry { state: self.entry_state@, resume: self.resume_on_drop }
    }
}

/// The expression for the state of the target.
pub const CURRENT_STATE: &'static str = "$_TARGETNAME curstate";

/// Trouble while the target is brought back to its entry state.
pub open spec fn restoring<T>(result: Result<T, Halt>) -> Result<T, Halt> {
    match result {
        Err(Halt::Link(trouble)) => Err(Halt::Link(error::restore(trouble.message))),
        _ => result,
    }
}

/// The target is resumed, and it runs.
#[verifier::opaque]
pub open spec fn resumed(t: Trail) -> (Trail, Result<(), Halt>) {
    match run_link(t, "resume"@) {
        (u, Err(halt)) => (u, restoring(Err(halt))),
        (u, Ok(_)) => match value_link(u, CURRENT_STATE@) {
            (v, Err(halt)) => (v, restoring(Err(halt))),
            (v, Ok(state)) => if state == "running"@ {
                (v, Ok(()))
            } else {
                (v, Err(Halt::Link(error::restore("expected running, got "@ + state))))
            },
        },
    }
}

/// The target is brought back to its entry state where it was running.
pub open spec fn restored_link(t: Trail, resume: bool) -> (Trail, Result<(), Halt>) {
    if resume {
        resumed(t)
    } else {
        (t, Ok(()))
    }
}

/// Takes trouble for a failure to restore the entry state.
fn restore_error(stop: Stop) -> (result: Stop)
    ensures
        Err::<(), Halt>(result@) == restoring(Err::<(), Halt>(stop@)),
{
    match stop {
        Stop::Link(error) => Stop::Link(SessionError::restore(error.message.as_str())),
        stop => stop,
    }
}

/// Resumes the target and makes sure that it runs.
fn resume_target(walk: &mut Walk) -> (outcome: Result<(), Stop>)
    ensures
        (final(walk)@, walk::seen(outcome)) == resumed(old(walk)@),
{
    reveal(resumed);
    match run_inner(walk, "resume") {
        Err(stop) => Err(restore_error(stop)),
        Ok(_) => match value_inner(walk, CURRENT_STATE) {
            Err(stop) => Err(restore_error(stop)),
            Ok(state) => if same(state.as_str(), "running") {
                Ok(())
            } else {
                let message = cat("expected running, got ", state.as_str());
                Err(Stop::Link(SessionError::restore(message.as_str())))
            },
        },
    }
}

/// Brings the target back to its entry state where it was running.
fn restore_link(walk: &mut Walk, resume: bool) -> (outcome: Result<(), Stop>)
    ensures
        (final(walk)@, walk::seen(outcome)) == restored_link(old(walk)@, resume),
{
    if resume {
        resume_target(walk)
    } else {
        Ok(())
    }
}

impl Session {
    /// The state of the target when the session began.
    pub fn entry_state(&self) -> (state: &str)
        ensures
            state@ == self@.state,
    {
        self.entry_state.as_str()
    }

    /// Brings the target back to its entry state where it was running.
    fn restore_entry_state_inner(&mut self, walk: &mut Walk) -> (outcome: Result<(), Stop>)
        ensures
            (final(walk)@, walk::seen(outcome)) == restored_link(
                old(walk)@,
                old(self).resume_on_drop,
            ),
            final(self).entry_state@ == old(self).entry_state@,
            final(self).resume_on_drop == (old(self).resume_on_drop && outcome is Err),
    {
        restore_link(walk, self.resume_on_drop)?;
        self.resume_on_drop = false;
        Ok(())
    }

    /// Brings the target back to its entry state where it was running.
    pub fn restore_entry_state(&mut self, walk: &mut Walk) -> (outcome: Result<(), Stop>)
        ensures
            (final(walk)@, walk::seen(outcome)) == restored(old(walk)@, old(self).resume_on_drop),
            final(self).entry_state@ == old(self).entry_state@,
            final(self).resume_on_drop == (old(self).resume_on_drop && outcome is Err),
    {
        let outcome = self.restore_entry_state_inner(walk);
        fail_on_link(outcome)
    }
}

/// The target is brought back to its entry state where it was running.
pub open spec fn restored(t: Trail, resume: bool) -> (Trail, Result<(), Halt>) {
    let (u, outcome) = restored_link(t, resume);
    (u, failing(outcome))
}

/// OpenOCD is ended.
pub open spec fn killed(t: Trail) -> (Trail, Result<(), Halt>) {
    walk::ask_act(t, Request::Kill)
}

/// OpenOCD is given until `deadline` to end by itself.
pub open spec fn reaped_by(t: Trail, deadline: int) -> (Trail, Result<(), Halt>)
    decreases t.left(),
{
    match walk::ask_number(t, Request::Clock) {
        (u, Err(halt)) => (u, Err(halt)),
        (u, Ok(Err(_))) => (u, Err(Halt::Stray)),
        (u, Ok(Ok(now))) => if now >= deadline {
            killed(u)
        } else {
            match walk::ask(u, Request::Child) {
                (v, Err(halt)) => (v, Err(halt)),
                (v, Ok(Reply::Exited(_))) => (v, Ok(())),
                (v, Ok(Reply::Failed(_))) => killed(v),
                (v, Ok(Reply::Running)) => match walk::ask_act(v, Request::Sleep(50)) {
                    (x, Err(halt)) => (x, Err(halt)),
                    (x, Ok(())) => reaped_by(x, deadline),
                },
                (v, Ok(_)) => (v, Err(Halt::Stray)),
            }
        },
    }
}

/// OpenOCD is given five seconds to end by itself.
#[verifier::opaque]
pub open spec fn reaped(t: Trail) -> (Trail, Result<(), Halt>) {
    match walk::ask_number(t, Request::Clock) {
        (u, Err(halt)) => (u, Err(halt)),
        (u, Ok(Err(_))) => (u, Err(Halt::Stray)),
        (u, Ok(Ok(now))) => reaped_by(u, now + 5000),
    }
}

/// Reads the clock.
fn clock(walk: &mut Walk) -> (now: Result<u64, Stop>)
    ensures
        final(walk)@ == walk::ask_number(old(walk)@, Request::Clock).0,
        walk::seen(now) == (match walk::ask_number(old(walk)@, Request::Clock).1 {
            Err(halt) => Err(halt),
            Ok(Err(_)) => Err(Halt::Stray),
            Ok(Ok(now)) => Ok(now),
        }),
{
    match walk.number(Op::Clock)? {
        Ok(now) => Ok(now),
        Err(_) => Err(Stop::Stray),
    }
}

/// Waits for OpenOCD to end, and ends it after five seconds.
fn reap(walk: &mut Walk) -> (outcome: Result<(), Stop>)
    ensures
        (final(walk)@, walk::seen(outcome)) == reaped(old(walk)@),
{
    reveal(reaped);
    let deadline: u128 = clock(walk)? as u128 + 5000;
    loop
        invariant
            reaped(old(walk)@) == reaped_by(walk@, deadline as int),
        decreases walk@.left(),
    {
        if clock(walk)? as u128 >= deadline {
            return walk.act(Op::Kill);
        }
        match walk.ask(Op::Child)? {
            Reply::Exited(_) => {
                return Ok(());
            },
            Reply::Failed(_) => {
                return walk.act(Op::Kill);
            },
            Reply::Running => {
                walk.act(Op::Sleep(50))?;
            },
            _ => {
                return Err(Stop::Stray);
            },
        }
    }
}

/// The bytes that tell OpenOCD to end.
pub open spec fn shutdown_bytes() -> Seq<u8> {
    tcl::frame("shutdown"@)
}

/// The session is ended: the entry state is restored if it still has to be, OpenOCD is told to
/// end, and the connection is closed. Trouble on the link does not matter any more.
#[verifier::opaque]
pub open spec fn dropped(t: Trail, resume: bool) -> (Trail, Result<(), Halt>) {
    match restored_link(t, resume) {
        (u, Err(Halt::Ask(request))) => (u, Err(Halt::Ask(request))),
        (u, Err(Halt::Stray)) => (u, Err(Halt::Stray)),
        (u, _) => match walk::ask_act(u, Request::Send(shutdown_bytes())) {
            (v, Err(halt)) => (v, Err(halt)),
            (v, Ok(())) => match walk::ask_act(v, Request::HangUp) {
                (x, Err(halt)) => (x, Err(halt)),
                (x, Ok(())) => reaped(x),
            },
        },
    }
}

impl Session {
    /// Ends the session.
    fn end(self, walk: &mut Walk) -> (outcome: Result<(), Stop>)
        ensures
            (final(walk)@, walk::seen(outcome)) == dropped(old(walk)@, self.resume_on_drop),
    {
        reveal(dropped);
        match restore_link(walk, self.resume_on_drop) {
            Err(Stop::Ask(op)) => {
                return Err(Stop::Ask(op));
            },
            Err(Stop::Stray) => {
                return Err(Stop::Stray);
            },
            _ => {},
        }
        walk.act(Op::Send(rpc_frame("shutdown")))?;
        walk.act(Op::HangUp)?;
        reap(walk)
    }

    /// Ends the session behind a command, which has come to `result`.
    pub fn close(self, walk: &mut Walk, result: Result<(), Stop>) -> (outcome: Result<(), Stop>)
        ensures
            (final(walk)@, walk::seen(outcome)) == closed(
                (old(walk)@, walk::seen(result)),
                self.resume_on_drop,
            ),
    {
        match result {
            Err(Stop::Ask(op)) => Err(Stop::Ask(op)),
            Err(Stop::Stray) => Err(Stop::Stray),
            result => {
                self.end(walk)?;
                result
            },
        }
    }
}

/// The session is ended behind a command that has come to an end.
pub open spec fn closed(step: (Trail, Result<(), Halt>), resume: bool) -> (Trail, Result<(), Halt>) {
    match step {
        (t, Err(Halt::Ask(request))) => (t, Err(Halt::Ask(request))),
        (t, Err(Halt::Stray)) => (t, Err(Halt::Stray)),
        (t, result) => match dropped(t, resume) {
            (u, Err(halt)) => (u, Err(halt)),
            (u, Ok(())) => (u, result),
        },
    }
}

/// OpenOCD is given until `deadline` to accept a connection.
pub open spec fn dialed_by(t: Trail, port: u16, deadline: int) -> (Trail, Result<(), Halt>)
    decreases t.left(),
{
    match walk::ask_number(t, Request::Clock) {
        (u, Err(halt)) => (u, Err(halt)),
        (u, Ok(Err(_))) => (u, Err(Halt::Stray)),
        (u, Ok(Ok(now))) => if now >= deadline {
            let (v, halt) = link_trouble(u, "timed out waiting for OpenOCD"@, 15);
            (v, Err(halt))
        } else {
            match walk::ask(u, Request::Child) {
                (v, Err(halt)) => (v, Err(halt)),
                (v, Ok(Reply::Failed(reason))) => (
                    v,
                    Err(
                        Halt::Link(error::fatal("could not read OpenOCD status: "@ + reason@)),
                    ),
                ),
                (v, Ok(Reply::Exited(status))) => match walk::ask_act(v, Request::Sleep(20)) {
                    (x, Err(halt)) => (x, Err(halt)),
                    (x, Ok(())) => {
                        let (y, halt) = link_trouble(
                            x,
                            "OpenOCD exited during startup ("@ + status@ + ")"@,
                            15,
                        );
                        (y, Err(halt))
                    },
                },
                (v, Ok(Reply::Running)) => match walk::ask_done(v, Request::Dial(port)) {
                    (x, Err(halt)) => (x, Err(halt)),
                    (x, Ok(Ok(()))) => match walk::ask_done(x, Request::SetTimeouts) {
                        (y, Err(halt)) => (y, Err(halt)),
                        (y, Ok(Ok(()))) => (y, Ok(())),
                        (y, Ok(Err(reason))) => (
                            y,
                            Err(
                                Halt::Link(
                                    error::fatal("could not set Tcl timeout: "@ + reason),
                                ),
                            ),
                        ),
                    },
                    (x, Ok(Err(_))) => match walk::ask_act(x, Request::Sleep(100)) {
                        (y, Err(halt)) => (y, Err(halt)),
                        (y, Ok(())) => dialed_by(y, port, deadline),
                    },
                },
                (v, Ok(_)) => (v, Err(Halt::Stray)),
            }
        },
    }
}

/// OpenOCD is given twenty seconds to accept a connection.
#[verifier::opaque]
pub open spec fn dialed(t: Trail, port: u16) -> (Trail, Result<(), Halt>) {
    match walk::ask_number(t, Request::Clock) {
        (u, Err(halt)) => (u, Err(halt)),
        (u, Ok(Err(_))) => (u, Err(Halt::Stray)),
        (u, Ok(Ok(now))) => dialed_by(u, port, now + 20_000),
    }
}

/// Connects to OpenOCD once it is ready.
fn wait_for_tcl(walk: &mut Walk, port: u16) -> (outcome: Result<(), Stop>)
    ensures
        (final(walk)@, walk::seen(outcome)) == dialed(old(walk)@, port),
{
    reveal(dialed);
    let deadline: u128 = clock(walk)? as u128 + 20_000;
    loop
        invariant
            dialed(old(walk)@, port) == dialed_by(walk@, port, deadline as int),
        decreases walk@.left(),
    {
        if clock(walk)? as u128 >= deadline {
            return Err(link_error(walk, "timed out waiting for OpenOCD", 15));
        }
        match walk.ask(Op::Child)? {
            Reply::Failed(reason) => {
                let message = cat("could not read OpenOCD status: ", reason.as_str());
                return Err(Stop::Link(SessionError::fatal(message.as_str())));
            },
            Reply::Exited(status) => {
                let message = cat3("OpenOCD exited during startup (", status.as_str(), ")");
                walk.act(Op::Sleep(20))?;
                return Err(link_error(walk, message.as_str(), 15));
            },
            Reply::Running => match walk.done(Op::Dial(port))? {
                Ok(()) => match walk.done(Op::SetTimeouts)? {
                    Ok(()) => {
                        return Ok(());
                    },
                    Err(reason) => {
                        let message = cat("could not set Tcl timeout: ", reason.as_str());
                        return Err(Stop::Link(SessionError::fatal(message.as_str())));
                    },
                },
                Err(_) => {
                    walk.act(Op::Sleep(100))?;
                },
            },
            _ => {
                return Err(Stop::Stray);
            },
        }
    }
}

/// OpenOCD is ended behind trouble before there was a connection.
pub open spec fn given_up(step: (Trail, Result<(), Halt>)) -> (Trail, Result<(), Halt>) {
    match step {
        (t, Err(Halt::Link(trouble))) => match reaped(t) {
            (u, Err(halt)) => (u, Err(halt)),
            (u, Ok(())) => (u, Err(Halt::Link(trouble))),
        },
        _ => step,
    }
}

/// OpenOCD is started, and there is a connection to it.
#[verifier::opaque]
pub open spec fn started(t: Trail, options: OpenOcdOptions) -> (Trail, Result<(), Halt>) {
    match walk::ask(t, Request::ReservePort) {
        (u, Err(halt)) => (u, Err(halt)),
        (u, Ok(Reply::Failed(reason))) => (
            u,
            Err(Halt::Link(error::fatal("could not reserve a local Tcl port: "@ + reason@))),
        ),
        (u, Ok(Reply::Port(port))) => match walk::ask_done(
            u,
            Request::Spawn(
                openocd::command_args(openocd::startup_commands(options, Some(port), None)),
            ),
        ) {
            (v, Err(halt)) => (v, Err(halt)),
            (v, Ok(Err(reason))) => (
                v,
                Err(
                    Halt::Link(
                        error::fatal(
                            openocd::start_failure(options.executable@, reason).message(),
                        ),
                    ),
                ),
            ),
            (v, Ok(Ok(()))) => given_up(dialed(v, port)),
        },
        (u, Ok(_)) => (u, Err(Halt::Stray)),
    }
}

/// Starts OpenOCD and connects to it.
fn start(walk: &mut Walk, options: &OpenOcdOptions) -> (outcome: Result<(), Stop>)
    ensures
        (final(walk)@, walk::seen(outcome)) == started(old(walk)@, *options),
{
    reveal(started);
    let port: u16 = match walk.ask(Op::ReservePort)? {
        Reply::Failed(reason) => {
            let message = cat("could not reserve a local Tcl port: ", reason.as_str());
            return Err(Stop::Link(SessionError::fatal(message.as_str())));
        },
        Reply::Port(port) => *port,
        _ => {
            return Err(Stop::Stray);
        },
    };
    if let Err(reason) = walk.done(Op::Spawn(openocd_args(options, Some(port), None)))? {
        let failure = openocd_start_error(options.executable.as_str(), reason.as_str());
        return Err(Stop::Link(SessionError::fatal(failure.message().as_str())));
    }
    match wait_for_tcl(walk, port) {
        Err(Stop::Link(error)) => {
            reap(walk)?;
            Err(Stop::Link(error))
        },
        outcome => outcome,
    }
}

/// The target is found in a known state and halted. The last value tells whether the target still
/// has to be resumed where this did not succeed.
#[verifier::opaque]
pub open spec fn greeted(t: Trail, restore: bool) -> (Trail, Result<Entry, Halt>, bool) {
    match run_link(t, "poll"@) {
        (u, Err(halt)) => (u, Err(halt), false),
        (u, Ok(_)) => match value_link(u, CURRENT_STATE@) {
            (v, Err(halt)) => (v, Err(halt), false),
            (v, Ok(state)) => {
                let resume = restore && state == "running"@;
                if state != "running"@ && state != "halted"@ {
                    (
                        v,
                        Err(
                            Halt::Link(
                                error::retryable("cannot determine target entry state: "@ + state),
                            ),
                        ),
                        false,
                    )
                } else {
                    match run_link(v, "halt"@) {
                        (x, Ok(_)) => (x, Ok(Entry { state, resume }), resume),
                        (x, Err(Halt::Link(trouble))) => match restored_link(x, resume) {
                            (y, Err(halt)) => (y, Err(halt), resume),
                            (y, Ok(())) => (y, Err(Halt::Link(trouble)), false),
                        },
                        (x, Err(halt)) => (x, Err(halt), resume),
                    }
                }
            },
        },
    }
}

/// Finds the state of the target and halts it.
fn greet(walk: &mut Walk, restore: bool) -> (outcome: (Result<Session, Stop>, bool))
    ensures
        (final(walk)@, walk::seen(outcome.0), outcome.1) == greeted(old(walk)@, restore),
        outcome.0 matches Ok(session) ==> session.resume_on_drop ==> restore,
{
    reveal(greeted);
    // The first background poll may not have run when Tcl connects.
    if let Err(stop) = run_inner(walk, "poll") {
        return (Err(stop), false);
    }
    let state = match value_inner(walk, CURRENT_STATE) {
        Ok(state) => state,
        Err(stop) => {
            return (Err(stop), false);
        },
    };
    let running = same(state.as_str(), "running");
    if !running && !same(state.as_str(), "halted") {
        let message = cat("cannot determine target entry state: ", state.as_str());
        return (Err(Stop::Link(SessionError::retryable(message.as_str()))), false);
    }
    let resume = restore && running;
    match run_inner(walk, "halt") {
        Ok(_) => (Ok(Session { entry_state: state, resume_on_drop: resume }), resume),
        Err(Stop::Link(error)) => match restore_link(walk, resume) {
            Err(stop) => (Err(stop), resume),
            Ok(()) => (Err(Stop::Link(error)), false),
        },
        Err(stop) => (Err(stop), resume),
    }
}

/// One attempt to reach the target: OpenOCD is started, and the target is found and halted. What
/// was started is ended again where this does not succeed.
#[verifier::opaque]
pub open spec fn attempted(t: Trail, options: OpenOcdOptions, restore: bool) -> (
    Trail,
    Result<Entry, Halt>,
) {
    match started(t, options) {
        (u, Err(halt)) => (u, Err(halt)),
        (u, Ok(())) => match greeted(u, restore) {
            (v, Err(Halt::Link(trouble)), resume) => match dropped(v, resume) {
                (x, Err(halt)) => (x, Err(halt)),
                (x, Ok(())) => (x, Err(Halt::Link(trouble))),
            },
            (v, result, _) => (v, result),
        },
    }
}

/// Tries once to reach the target.
fn attempt_once(walk: &mut Walk, options: &OpenOcdOptions, restore: bool) -> (session: Result<
    Session,
    Stop,
>)
    ensures
        (final(walk)@, walk::seen(session)) == attempted(old(walk)@, *options, restore),
        session matches Ok(session) ==> session.resume_on_drop ==> restore,
{
    reveal(attempted);
    start(walk, options)?;
    match greet(walk, restore) {
        (Err(Stop::Link(error)), resume) => {
            let session = Session { entry_state: String::new(), resume_on_drop: resume };
            session.end(walk)?;
            Err(Stop::Link(error))
        },
        (result, _) => result,
    }
}

/// The failure to reach the target.
pub open spec fn out_of_reach(message: Seq<char>) -> Failure {
    Failure::Runtime(
        "cannot reach the target: "@ + message
            + "\nCheck target power, cables, --serial, and the 400 kHz default. Use --verbose for the OpenOCD log."@,
    )
}

/// The notice of a retry.
pub open spec fn retry_notice(attempt: u32, delay: u64) -> Seq<char> {
    "retrying: link attempt "@ + text::decimal(attempt as nat) + " failed; reconnecting in "@ + (
    if delay == 500 {
        "0.5"@
    } else {
        text::decimal((delay / 1000) as nat)
    }) + " s ("@ + text::decimal((attempt + 1) as nat) + "/3)"@
}

/// How many times the target is tried.
pub const ATTEMPTS: u32 = 3;

/// The target is reached in one of the attempts from `attempt` on.
pub open spec fn connected_from(
    t: Trail,
    options: OpenOcdOptions,
    restore: bool,
    attempt: u32,
) -> (Trail, Result<Entry, Halt>)
    decreases ATTEMPTS - attempt,
{
    match attempted(t, options, restore) {
        (u, Err(Halt::Link(trouble))) => if !trouble.retryable || attempt >= ATTEMPTS {
            (u, Err(Halt::Fail(out_of_reach(trouble.message))))
        } else {
            let delay = openocd::delay_before_retry(trouble.message, attempt);
            match walk::ask_act(u, Request::Warn(retry_notice(attempt, delay))) {
                (v, Err(halt)) => (v, Err(halt)),
                (v, Ok(())) => match walk::ask_act(v, Request::Sleep(delay)) {
                    (x, Err(halt)) => (x, Err(halt)),
                    (x, Ok(())) => connected_from(x, options, restore, (attempt + 1) as u32),
                },
            }
        },
        other => other,
    }
}

/// The target is reached.
#[verifier::opaque]
pub open spec fn connected(t: Trail, options: OpenOcdOptions, restore: bool) -> (
    Trail,
    Result<Entry, Halt>,
) {
    connected_from(t, options, restore, 1)
}

/// Shows a delay in seconds.
fn seconds(delay: u64) -> (shown: String)
    ensures
        shown@ == if delay == 500 {
            "0.5"@
        } else {
            text::decimal((delay / 1000) as nat)
        },
{
    if delay == 500 {
        "0.5".to_owned()
    } else {
        decimal_text(delay / 1000)
    }
}

/// Reaches the target in at most three attempts.
fn connect_with_policy(walk: &mut Walk, options: &OpenOcdOptions, restore_entry_state: bool) -> (
    session: Result<Session, Stop>)
    ensures
        (final(walk)@, walk::seen(session)) == connected(old(walk)@, *options, restore_entry_state),
        session matches Ok(session) ==> session.resume_on_drop ==> restore_entry_state,
{
    reveal(connected);
    let mut attempt: u32 = 1;
    loop
        invariant
            1 <= attempt <= ATTEMPTS,
            connected(old(walk)@, *options, restore_entry_state) == connected_from(
                walk@,
                *options,
                restore_entry_state,
                attempt,
            ),
        decreases ATTEMPTS - attempt,
    {
        match attempt_once(walk, options, restore_entry_state) {
            Err(Stop::Link(error)) => {
                if !error.retryable || attempt >= ATTEMPTS {
                    return Err(
                        Stop::Fail(
                            AppError::Runtime(
                                cat3(
                                    "cannot reach the target: ",
                                    error.message.as_str(),
                                    "\nCheck target power, cables, --serial, and the 400 kHz default. Use --verbose for the OpenOCD log.",
                                ),
                            ),
                        ),
                    );
                }
                let delay: u64 = retry_delay(error.message.as_str(), attempt);
                let mut notice = cat5(
                    "retrying: link attempt ",
                    decimal_text(attempt as u64).as_str(),
                    " failed; reconnecting in ",
                    seconds(delay).as_str(),
                    " s (",
                );
                notice.append(decimal_text((attempt + 1) as u64).as_str());
                notice.append("/3)");
                walk.act(Op::Warn(notice))?;
                walk.act(Op::Sleep(delay))?;
                attempt = attempt + 1;
            },
            session => {
                return session;
            },
        }
    }
}

/// Reaches the target for a command that leaves it in a state of its own.
pub fn connect(walk: &mut Walk, options: &OpenOcdOptions) -> (session: Result<Session, Stop>)
    ensures
        (final(walk)@, walk::seen(session)) == connected(old(walk)@, *options, false),
        session matches Ok(session) ==> !session.resume_on_drop,
{
    connect_with_policy(walk, options, false)
}

/// Reaches the target for a command that leaves it as it was found.
pub fn connect_read_only(walk: &mut Walk, options: &OpenOcdOptions) -> (session: Result<
    Session,
    Stop,
>)
    ensures
        (final(walk)@, walk::seen(session)) == connected(old(walk)@, *options, true),
{
    connect_with_policy(walk, options, true)
}

/// Whether a reply is bytes, and not none.
pub open spec fn is_piece(reply: Reply) -> bool {
    reply is Bytes && reply->Bytes_0@.len() > 0
}

/// Whether `n` replies from `at` on are pieces of bytes: none is empty, and only the last one may
/// end with the end byte.
pub open spec fn are_pieces(replies: Seq<Reply>, at: int, n: nat) -> bool {
    &&& 0 <= at
    &&& at + n <= replies.len()
    &&& forall|i: int|
        at <= i < at + n ==> is_piece(#[trigger] replies[i]) && (i < at + n - 1
            ==> replies[i]->Bytes_0@.last() != RPC_EOM)
}

/// The bytes of `n` pieces.
pub open spec fn pieces(replies: Seq<Reply>, at: int, n: nat) -> Seq<u8>
    decreases n,
{
    if n == 0 {
        Seq::empty()
    } else {
        match replies[at] {
            Reply::Bytes(piece) => piece@ + pieces(replies, at + 1, (n - 1) as nat),
            _ => Seq::empty(),
        }
    }
}

/// Where a walk is after `n` pieces have come.
pub open spec fn after_pieces(t: Trail, n: nat) -> Trail {
    Trail {
        replies: t.replies,
        at: t.at + n,
        asked: t.asked + Seq::new(n, |i: int| Request::Receive),
    }
}

/// A reply of OpenOCD may come in any number of pieces: it ends with the first piece that ends with
/// the end byte, and its text is that of all bytes before this one.
pub proof fn law_reply_may_come_in_pieces(t: Trail, sofar: Seq<u8>, n: nat)
    requires
        n > 0,
        are_pieces(t.replies, t.at, n),
        pieces(t.replies, t.at, n).last() == RPC_EOM,
    ensures
        received(t, sofar) == (
            after_pieces(t, n),
            Ok::<Seq<char>, Halt>(
                tcl::reply_text((sofar + pieces(t.replies, t.at, n)).drop_last()),
            ),
        ),
    decreases n,
{
    let u = after_pieces(t, 1);
    assert(u.asked =~= t.asked.push(Request::Receive));
    assert(after_pieces(u, (n - 1) as nat).asked =~= after_pieces(t, n).asked);
    let rest = (n - 1) as nat;
    let piece = t.replies[t.at]->Bytes_0@;
    let all = sofar + piece;
    assert(t.replies[t.at] is Bytes);
    assert(all.last() == piece.last());
    if n == 1 {
        assert(pieces(t.replies, t.at + 1, rest) =~= Seq::empty());
        assert(pieces(t.replies, t.at, n) =~= piece);
    } else {
        assert(t.replies[t.at + 1] is Bytes);
        let tail = pieces(t.replies, t.at + 1, rest);
        assert(tail == t.replies[t.at + 1]->Bytes_0@ + pieces(
            t.replies,
            t.at + 2,
            (rest - 1) as nat,
        ));
        assert(pieces(t.replies, t.at, n) == piece + tail);
        assert(tail.last() == pieces(t.replies, t.at, n).last());
        assert(are_pieces(u.replies, u.at, rest));
        law_reply_may_come_in_pieces(u, all, rest);
        assert(all + tail =~= sofar + (piece + tail));
    }
}

/// A text that holds no end character comes back from the bytes that carry it, in however many
/// pieces they come.
pub proof fn law_reply_gives_back_its_text(t: Trail, text: Seq<char>, n: nat)
    requires
        n > 0,
        0 <= t.at,
        t.at + n <= t.replies.len(),
        forall|i: int|
            t.at <= i < t.at + n ==> is_piece(#[trigger] t.replies[i]),
        pieces(t.replies, t.at, n) == tcl::frame(text),
        !text.contains('\u{1a}'),
    ensures
        received(t, Seq::empty()) == (
            after_pieces(t, n),
            Ok::<Seq<char>, Halt>(text),
        ),
{
    let all = pieces(t.replies, t.at, n);
    assert forall|i: int| t.at <= i < t.at + n - 1 implies t.replies[i]->Bytes_0@.last()
        != RPC_EOM by {
        let place = lemma_piece_ends_inside(t.replies, t.at, n, i);
        tcl::law_frame_ends_once(text, place);
    }
    assert(are_pieces(t.replies, t.at, n));
    law_reply_may_come_in_pieces(t, Seq::empty(), n);
    assert((Seq::<u8>::empty() + all).drop_last() =~= encode_utf8(text));
    encode_utf8_valid_utf8(text);
    encode_utf8_decode_utf8(text);
}

/// Where a piece before the last one ends in the bytes of all.
proof fn lemma_piece_ends_inside(replies: Seq<Reply>, at: int, n: nat, i: int) -> (place: int)
    requires
        0 <= at,
        at <= i < at + n - 1,
        at + n <= replies.len(),
        forall|j: int| at <= j < at + n ==> is_piece(#[trigger] replies[j]),
    ensures
        0 <= place < pieces(replies, at, n).len() - 1,
        pieces(replies, at, n)[place] == replies[i]->Bytes_0@.last(),
    decreases n,
{
    let rest = (n - 1) as nat;
    assert(replies[at] is Bytes);
    assert(replies[at + 1] is Bytes);
    let piece = replies[at]->Bytes_0@;
    let tail = pieces(replies, at + 1, rest);
    assert(pieces(replies, at, n) == piece + tail);
    assert(tail == replies[at + 1]->Bytes_0@ + pieces(replies, at + 2, (rest - 1) as nat));
    if i == at {
        piece.len() - 1
    } else {
        piece.len() + lemma_piece_ends_inside(replies, at + 1, rest, i)
    }
}

/// A session begins in a known state of the target, and notes that the target has to be resumed
/// where it was running and is to be left as it was found.
pub proof fn law_entry_state_is_known(t: Trail, options: OpenOcdOptions, restore: bool)
    ensures
        connected(t, options, restore).1 matches Ok(entry) ==> {
            &&& entry.state == "running"@ || entry.state == "halted"@
            &&& entry.resume == (restore && entry.state == "running"@)
        },
{
    reveal(connected);
    lemma_entry_state(t, options, restore, 1);
}

/// A session begins in a known state of the target.
proof fn lemma_entry_state(t: Trail, options: OpenOcdOptions, restore: bool, attempt: u32)
    ensures
        connected_from(t, options, restore, attempt).1 matches Ok(entry) ==> {
            &&& entry.state == "running"@ || entry.state == "halted"@
            &&& entry.resume == (restore && entry.state == "running"@)
        },
    decreases ATTEMPTS - attempt,
{
    reveal(attempted);
    reveal(greeted);
    if let Some(x) = next_attempt(t, options, restore, attempt) {
        lemma_entry_state(x, options, restore, (attempt + 1) as u32);
    }
}

/// Where the attempt behind a failed one begins: the trouble is worth another attempt, and the
/// notice and the delay are over.
pub open spec fn next_attempt(t: Trail, options: OpenOcdOptions, restore: bool, attempt: u32) -> Option<
    Trail,
> {
    match attempted(t, options, restore) {
        (u, Err(Halt::Link(trouble))) => if trouble.retryable && attempt < ATTEMPTS {
            let delay = openocd::delay_before_retry(trouble.message, attempt);
            match walk::ask_act(u, Request::Warn(retry_notice(attempt, delay))) {
                (v, Ok(())) => match walk::ask_act(v, Request::Sleep(delay)) {
                    (x, Ok(())) => Some(x),
                    _ => None,
                },
                _ => None,
            }
        } else {
            None
        },
        _ => None,
    }
}

/// The target is tried three times and no more: trouble in the third attempt is what the command
/// fails with.
pub proof fn law_third_attempt_is_the_last(
    t: Trail,
    options: OpenOcdOptions,
    restore: bool,
    second: Trail,
    third: Trail,
    end: Trail,
    trouble: Trouble,
)
    requires
        next_attempt(t, options, restore, 1) == Some(second),
        next_attempt(second, options, restore, 2) == Some(third),
        attempted(third, options, restore) == (end, Err::<Entry, Halt>(Halt::Link(trouble))),
    ensures
        connected(t, options, restore) == (
            end,
            Err::<Entry, Halt>(Halt::Fail(out_of_reach(trouble.message))),
        ),
{
    reveal(connected);
    reveal_with_fuel(connected_from, 4);
}

/// Trouble that is not worth another attempt ends the attempts at once.
pub proof fn law_fatal_trouble_is_not_retried(
    t: Trail,
    options: OpenOcdOptions,
    restore: bool,
    end: Trail,
    trouble: Trouble,
)
    requires
        attempted(t, options, restore) == (end, Err::<Entry, Halt>(Halt::Link(trouble))),
        !trouble.retryable,
    ensures
        connected(t, options, restore) == (
            end,
            Err::<Entry, Halt>(Halt::Fail(out_of_reach(trouble.message))),
        ),
{
    reveal(connected);
}

/// Trouble while the target is brought back to its entry state is never worth another attempt.
pub proof fn law_failed_restore_is_fatal(t: Trail, resume: bool)
    ensures
        restored_link(t, resume).1 matches Err(Halt::Link(trouble)) ==> !trouble.retryable,
{
    reveal(resumed);
}

/// Waiting for OpenOCD to end never fails.
proof fn lemma_reaped_by_never_fails(t: Trail, deadline: int)
    ensures
        !(reaped_by(t, deadline).1 matches Err(Halt::Fail(_))),
    decreases t.left(),
{
    if let (u, Ok(Ok(now))) = walk::ask_number(t, Request::Clock) {
        if now < deadline {
            if let (v, Ok(Reply::Running)) = walk::ask(u, Request::Child) {
                if let (x, Ok(())) = walk::ask_act(v, Request::Sleep(50)) {
                    lemma_reaped_by_never_fails(x, deadline);
                }
            }
        }
    }
}

/// Ending a session never fails, whatever the link does.
pub proof fn lemma_dropped_never_fails(t: Trail, resume: bool)
    ensures
        !(dropped(t, resume).1 matches Err(Halt::Fail(_))),
{
    reveal(dropped);
    reveal(reaped);
    let (u, _) = restored_link(t, resume);
    if let (v, Ok(())) = walk::ask_act(u, Request::Send(shutdown_bytes())) {
        if let (x, Ok(())) = walk::ask_act(v, Request::HangUp) {
            if let (y, Ok(Ok(now))) = walk::ask_number(x, Request::Clock) {
                lemma_reaped_by_never_fails(y, now + 5000);
            }
        }
    }
}

} // verus!
