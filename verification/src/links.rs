//! What holds of the link to OpenOCD and of the sessions on it.
use vstd::prelude::*;

use crate::commands;
use crate::control;
use crate::openocd;
use crate::openocd::OpenOcdOptions;
use crate::outcomes;
use crate::promises;
use crate::promises::Reach;
use crate::session;
use crate::session::{Entry, CURRENT_STATE};
use crate::tcl;
use crate::text;
use crate::walk;
use crate::walk::{Halt, Reply, Request, Trail};

verus! {

/// Whether OpenOCD is told which probe, transport, speed and ports to use, and to listen on the local
/// host only.
pub open spec fn is_told(
    args: Seq<Seq<char>>,
    options: OpenOcdOptions,
    tcl_port: Option<u16>,
    gdb_port: Option<u16>,
) -> bool {
    &&& control::hands_over(
        args,
        if options.transport is Swd {
            "transport select swd"@
        } else {
            "transport select jtag"@
        },
    )
    &&& control::hands_over(args, "adapter speed "@ + text::decimal(options.speed as nat))
    &&& options.serial is Some ==> control::hands_over(
        args,
        "adapter serial "@ + tcl::literal(options.serial->0@),
    )
    &&& control::hands_over(args, "bindto 127.0.0.1"@)
    &&& control::hands_over(
        args,
        match tcl_port {
            Some(port) => "tcl_port "@ + text::decimal(port as nat),
            None => "tcl_port disabled"@,
        },
    )
    &&& control::hands_over(
        args,
        match gdb_port {
            Some(port) => "gdb_port "@ + text::decimal(port as nat),
            None => "gdb_port disabled"@,
        },
    )
    &&& control::hands_over(args, "telnet_port disabled"@)
    &&& control::hands_over(args, "adapter driver cmsis-dap"@)
    &&& control::hands_over(args, "source [find target/at91sam4XXX.cfg]"@)
    &&& control::hands_over(
        args,
        "flash bank $_FLASHNAME at91sam4 0x00400000 0 1 1 $_TARGETNAME"@,
    )
    &&& control::hands_over(args, "reset_config none"@)
    &&& args.len() == if options.serial is Some {
        30int
    } else {
        28
    }
}

/// A command among those that are handed over is handed over.
proof fn lemma_handed_over(commands: Seq<Seq<char>>, i: int)
    requires
        0 <= i < commands.len(),
    ensures
        control::hands_over(openocd::command_args(commands), commands[i]),
{
    let args = openocd::command_args(commands);
    assert(args[2 * i] == "-c"@);
    assert(args[2 * i + 1] == commands[i]);
}

/// OpenOCD is told what the user chose.
pub proof fn law_options_are_handed_over(
    options: OpenOcdOptions,
    tcl_port: Option<u16>,
    gdb_port: Option<u16>,
)
    ensures
        is_told(
            openocd::command_args(openocd::startup_commands(options, tcl_port, gdb_port)),
            options,
            tcl_port,
            gdb_port,
        ),
{
    reveal_strlit("transport select ");
    reveal_strlit("swd");
    reveal_strlit("jtag");
    reveal_strlit("transport select swd");
    reveal_strlit("transport select jtag");
    reveal_strlit("tcl_port ");
    reveal_strlit("gdb_port ");
    reveal_strlit("disabled");
    reveal_strlit("tcl_port disabled");
    reveal_strlit("gdb_port disabled");
    let list = openocd::startup_commands(options, tcl_port, gdb_port);
    let k: int = if options.serial is Some {
        3
    } else {
        2
    };
    if let Some(serial) = options.serial {
        assert(list[2] == "adapter serial "@ + tcl::literal(serial@));
        lemma_handed_over(list, 2);
    }
    assert("transport select "@ + "swd"@ =~= "transport select swd"@);
    assert("transport select "@ + "jtag"@ =~= "transport select jtag"@);
    assert("tcl_port "@ + "disabled"@ =~= "tcl_port disabled"@);
    assert("gdb_port "@ + "disabled"@ =~= "gdb_port disabled"@);
    assert(list[k] == "transport select "@ + options.transport.word());
    lemma_handed_over(list, k);
    assert(list[k + 7] == "adapter speed "@ + text::decimal(options.speed as nat));
    lemma_handed_over(list, k + 7);
    assert(list[k + 8] == "bindto 127.0.0.1"@);
    lemma_handed_over(list, k + 8);
    assert(list[k + 9] == "tcl_port "@ + openocd::port_text(tcl_port));
    lemma_handed_over(list, k + 9);
    assert(list[k + 10] == "gdb_port "@ + openocd::port_text(gdb_port));
    lemma_handed_over(list, k + 10);
    assert(list[k + 11] == "telnet_port disabled"@);
    lemma_handed_over(list, k + 11);
    assert(list[0] == "adapter driver cmsis-dap"@);
    lemma_handed_over(list, 0);
    assert(list[k + 3] == "source [find target/at91sam4XXX.cfg]"@);
    lemma_handed_over(list, k + 3);
    assert(list[k + 5] == "flash bank $_FLASHNAME at91sam4 0x00400000 0 1 1 $_TARGETNAME"@);
    lemma_handed_over(list, k + 5);
    assert(list[k + 6] == "reset_config none"@);
    lemma_handed_over(list, k + 6);
}

/// Whether there is a connection to a port, made between two points of a walk, with limits on the
/// time that it may take.
pub open spec fn did_dial(t: Trail, u: Trail, port: u16) -> bool {
    &&& walk::told(t, u, Request::Dial(port), Reply::Done)
    &&& walk::told(t, u, Request::SetTimeouts, Reply::Done)
}

/// A connection is to the port that was asked for.
proof fn lemma_dialed_by(t: Trail, port: u16, deadline: int)
    requires
        t.at >= 0,
        session::dialed_by(t, port, deadline).1 is Ok,
    ensures
        did_dial(t, session::dialed_by(t, port, deadline).0, port),
        walk::leads_to(t, session::dialed_by(t, port, deadline).0),
    decreases t.left(),
{
    let end = session::dialed_by(t, port, deadline).0;
    let (u, _) = walk::ask_number(t, Request::Clock);
    let (v, _) = walk::ask(u, Request::Child);
    let dial = Request::Dial(port);
    let (x, outcome) = walk::ask_done(v, dial);
    if outcome->Ok_0 is Ok {
        walk::lemma_told(v, dial);
        walk::lemma_told_inside(t, v, x, end, dial, Reply::Done);
        walk::lemma_told(x, Request::SetTimeouts);
        walk::lemma_told_inside(t, x, end, end, Request::SetTimeouts, Reply::Done);
    } else {
        let (y, _) = walk::ask_act(x, Request::Sleep(100));
        lemma_dialed_by(y, port, deadline);
        walk::lemma_told_inside(t, y, end, end, dial, Reply::Done);
        walk::lemma_told_inside(t, y, end, end, Request::SetTimeouts, Reply::Done);
    }
}

/// Whether OpenOCD was started between two points of a walk, as the user chose, and there is a
/// connection to the port that it was told to listen on.
pub open spec fn did_start(t: Trail, u: Trail, options: OpenOcdOptions) -> bool {
    exists|port: u16, args: Seq<Seq<char>>|
        #[trigger] walk::told(t, u, Request::ReservePort, Reply::Port(port))
            && #[trigger] walk::told(t, u, Request::Spawn(args), Reply::Done) && is_told(
            args,
            options,
            Some(port),
            None,
        ) && did_dial(t, u, port)
}

/// OpenOCD is started as the user chose, and the connection is to the port that was reserved for it.
pub proof fn law_openocd_is_started_as_chosen(t: Trail, options: OpenOcdOptions)
    requires
        t.at >= 0,
        session::started(t, options).1 is Ok,
    ensures
        did_start(t, session::started(t, options).0, options),
{
    let end = session::started(t, options).0;
    promises::lemma_started(t, options, Reach::Anything);
    reveal(session::started);
    walk::lemma_told(t, Request::ReservePort);
    let (u, reply) = walk::ask(t, Request::ReservePort);
    let port = reply->Ok_0->Port_0;
    let args = openocd::command_args(openocd::startup_commands(options, Some(port), None));
    law_options_are_handed_over(options, Some(port), None);
    let spawn = Request::Spawn(args);
    walk::lemma_told(u, spawn);
    let (v, _) = walk::ask(u, spawn);
    reveal(session::dialed);
    let (x, now) = walk::ask_number(v, Request::Clock);
    lemma_dialed_by(x, port, now->Ok_0->Ok_0 + 20_000);
    assert(session::dialed(v, port).0 == end);
    walk::lemma_told_inside(t, t, u, end, Request::ReservePort, Reply::Port(port));
    walk::lemma_told_inside(t, u, v, end, spawn, Reply::Done);
    walk::lemma_told_inside(t, x, end, end, Request::Dial(port), Reply::Done);
    walk::lemma_told_inside(t, x, end, end, Request::SetTimeouts, Reply::Done);
    assert(walk::told(t, end, Request::ReservePort, Reply::Port(port)));
    assert(walk::told(t, end, Request::Spawn(args), Reply::Done));
}

/// Whether the state of the target was read on the link between two points of a walk.
pub open spec fn did_see(t: Trail, u: Trail, state: Seq<char>) -> bool {
    exists|w: Trail|
        walk::leads_to(t, w) && walk::leads_to(
            (#[trigger] session::value_link(w, CURRENT_STATE@)).0,
            u,
        ) && session::value_link(w, CURRENT_STATE@).1 == Ok::<Seq<char>, Halt>(state)
}

/// A target that was resumed runs: it was told to, and was then seen to run.
pub proof fn law_resumed_target_runs(t: Trail)
    requires
        t.at >= 0,
        session::resumed(t).1 is Ok,
    ensures
        exists|w: Trail|
            #[trigger] outcomes::has_run(t, w, "resume"@) && did_see(
                w,
                session::resumed(t).0,
                "running"@,
            ),
{
    let end = session::resumed(t).0;
    reveal(session::resumed);
    promises::lemma_run_link(t, "resume"@, Reach::Anything);
    let (u, _) = session::run_link(t, "resume"@);
    promises::lemma_state_link(u, Reach::Anything);
    reveal(session::run_of);
    outcomes::lemma_run_has_run(t, "resume"@);
    assert(did_see(u, end, "running"@)) by {
        assert(walk::leads_to(session::value_link(u, CURRENT_STATE@).0, end));
    }
    assert(outcomes::has_run(t, u, "resume"@));
}

/// Whether a session was begun between two points of a walk: OpenOCD was started and told to look for
/// the target, whose state was then seen, and only then was it told to halt.
pub open spec fn did_begin(
    t: Trail,
    a: Trail,
    b: Trail,
    u: Trail,
    options: OpenOcdOptions,
    state: Seq<char>,
) -> bool {
    &&& walk::leads_to(t, a)
    &&& did_start(a, b, options)
    &&& exists|p: Trail, w: Trail|
        #[trigger] outcomes::has_run(b, p, "poll"@) && #[trigger] did_see(p, w, state)
            && outcomes::has_run(w, u, "halt"@)
}

/// The target is reached only through an OpenOCD that was started as the user chose, and the entry
/// state is the one that was seen before the target was told to halt.
proof fn lemma_session_is_begun(
    t: Trail,
    options: OpenOcdOptions,
    restore: bool,
    attempt: u32,
)
    requires
        t.at >= 0,
        1 <= attempt <= session::ATTEMPTS,
    ensures
        session::connected_from(t, options, restore, attempt) matches (u, Ok(entry)) ==> exists|
            a: Trail,
            b: Trail,
        | did_begin(t, a, b, u, options, entry.state),
    decreases session::ATTEMPTS - attempt,
{
    let reach = Reach::Anything;
    promises::lemma_attempted(t, options, restore, reach);
    if let (end, Ok(entry)) = session::connected_from(t, options, restore, attempt) {
        match session::attempted(t, options, restore) {
            (u, Err(Halt::Link(trouble))) => {
                let delay = openocd::delay_before_retry(trouble.message, attempt);
                let notice = Request::Warn(session::retry_notice(attempt, delay));
                let (v, _) = walk::ask_act(u, notice);
                let (x, _) = walk::ask_act(v, Request::Sleep(delay));
                lemma_session_is_begun(x, options, restore, (attempt + 1) as u32);
                let (a, b) = choose|a: Trail, b: Trail|
                    did_begin(x, a, b, end, options, entry.state);
                assert(did_begin(t, a, b, end, options, entry.state));
            },
            _ => {
                reveal(session::attempted);
                reveal(session::greeted);
                promises::lemma_started(t, options, reach);
                law_openocd_is_started_as_chosen(t, options);
                let (u, _) = session::started(t, options);
                promises::lemma_run_link(u, "poll"@, reach);
                let (v, _) = session::run_link(u, "poll"@);
                promises::lemma_state_link(v, reach);
                let (x, _) = session::value_link(v, CURRENT_STATE@);
                promises::lemma_run_link(x, "halt"@, reach);
                reveal(session::run_of);
                outcomes::lemma_run_has_run(x, "halt"@);
                outcomes::lemma_run_has_run(u, "poll"@);
                assert(outcomes::has_run(u, v, "poll"@));
                assert(did_see(v, x, entry.state)) by {
                    assert(walk::leads_to(session::value_link(v, CURRENT_STATE@).0, x));
                }
                assert(outcomes::has_run(x, end, "halt"@));
                assert(did_begin(t, t, u, end, options, entry.state));
            },
        }
    }
}

/// The target is reached only through an OpenOCD that was started as the user chose, and the entry
/// state is the one that was seen before the target was told to halt.
pub proof fn law_session_begins_in_the_state_that_was_seen(
    t: Trail,
    options: OpenOcdOptions,
    restore: bool,
)
    requires
        t.at >= 0,
    ensures
        session::connected(t, options, restore) matches (u, Ok(entry)) ==> exists|a: Trail, b: Trail|
            did_begin(t, a, b, u, options, entry.state),
{
    reveal(session::connected);
    lemma_session_is_begun(t, options, restore, 1);
}

/// Whether a session was ended between two points of a walk: OpenOCD was told to end, the connection
/// was closed, and OpenOCD has ended by itself or was ended.
pub open spec fn did_end(t: Trail, u: Trail) -> bool {
    &&& outcomes::did_ask(t, u, Request::Send(tcl::frame("shutdown"@)))
    &&& outcomes::did_ask(t, u, Request::HangUp)
    &&& has_gone(t, u)
}

/// Whether OpenOCD has ended by itself, or was ended, between two points of a walk.
pub open spec fn has_gone(t: Trail, u: Trail) -> bool {
    ||| outcomes::did_ask(t, u, Request::Kill)
    ||| exists|status: String| #[trigger] walk::told(t, u, Request::Child, Reply::Exited(status))
}

/// OpenOCD is gone in the whole where it is gone in a part.
proof fn lemma_gone_inside(t: Trail, a: Trail, b: Trail, u: Trail)
    requires
        walk::leads_to(t, a),
        has_gone(a, b),
        walk::leads_to(b, u),
    ensures
        has_gone(t, u),
{
    if outcomes::did_ask(a, b, Request::Kill) {
        outcomes::lemma_asked_inside(t, a, b, u, Request::Kill);
    } else {
        let status = choose|status: String| #[trigger]
            walk::told(a, b, Request::Child, Reply::Exited(status));
        walk::lemma_told_inside(t, a, b, u, Request::Child, Reply::Exited(status));
    }
}

/// OpenOCD is gone once it has been given time to end.
proof fn lemma_reaped_by(t: Trail, deadline: int)
    requires
        t.at >= 0,
        session::reaped_by(t, deadline).1 is Ok,
    ensures
        has_gone(t, session::reaped_by(t, deadline).0),
        walk::leads_to(t, session::reaped_by(t, deadline).0),
    decreases t.left(),
{
    let end = session::reaped_by(t, deadline).0;
    let (u, now) = walk::ask_number(t, Request::Clock);
    if now->Ok_0->Ok_0 >= deadline {
        outcomes::lemma_act_asked(u, Request::Kill);
        outcomes::lemma_asked_inside(t, u, end, end, Request::Kill);
    } else {
        walk::lemma_told(u, Request::Child);
        let (v, child) = walk::ask(u, Request::Child);
        match child->Ok_0 {
            Reply::Exited(status) => {
                walk::lemma_told_inside(t, u, v, end, Request::Child, Reply::Exited(status));
            },
            Reply::Failed(_) => {
                outcomes::lemma_act_asked(v, Request::Kill);
                outcomes::lemma_asked_inside(t, v, end, end, Request::Kill);
            },
            _ => {
                let (x, _) = walk::ask_act(v, Request::Sleep(50));
                lemma_reaped_by(x, deadline);
                lemma_gone_inside(t, x, end, end);
            },
        }
    }
}

/// A session is ended behind each command that comes to an end: once the target was reached, OpenOCD
/// is told to end, the connection is closed, and OpenOCD is gone, whether or not the command
/// succeeded. How the command came out stays as it is.
pub proof fn law_session_is_ended(
    t: Trail,
    options: OpenOcdOptions,
    restore: bool,
    body: spec_fn(Trail, Entry) -> (Trail, Result<(), Halt>),
)
    requires
        t.at >= 0,
        session::connected(t, options, restore).1 is Ok,
        forall|u: Trail, entry: Entry|
            u.at >= 0 ==> promises::settles(u, #[trigger] body(u, entry), Reach::Anything),
        !(commands::in_session(t, options, restore, body).1 matches Err(Halt::Ask(_))),
        !(commands::in_session(t, options, restore, body).1 is Err
            && commands::in_session(t, options, restore, body).1->Err_0 is Stray),
    ensures
        ({
            let (u, entry) = session::connected(t, options, restore);
            &&& did_end(
                body(u, entry->Ok_0).0,
                commands::in_session(t, options, restore, body).0,
            )
            &&& commands::in_session(t, options, restore, body).1 == body(u, entry->Ok_0).1
        }),
{
    let reach = Reach::Anything;
    promises::lemma_connected(t, options, restore, reach);
    let (u, entry) = session::connected(t, options, restore);
    let entry = entry->Ok_0;
    let step = body(u, entry);
    assert(promises::settles(u, step, reach));
    let resume = entry.resume && step.1 is Err;
    let s = step.0;
    let end = commands::in_session(t, options, restore, body).0;
    session::lemma_dropped_never_fails(s, resume);
    promises::lemma_dropped(s, resume, reach);
    promises::lemma_restored_link(s, resume, reach);
    reveal(session::dropped);
    let (a, _) = session::restored_link(s, resume);
    let shutdown = Request::Send(tcl::frame("shutdown"@));
    outcomes::lemma_act_asked(a, shutdown);
    let (b, _) = walk::ask_act(a, shutdown);
    outcomes::lemma_act_asked(b, Request::HangUp);
    let (c, _) = walk::ask_act(b, Request::HangUp);
    reveal(session::reaped);
    let (d, now) = walk::ask_number(c, Request::Clock);
    lemma_reaped_by(d, now->Ok_0->Ok_0 + 5000);
    outcomes::lemma_asked_inside(s, a, b, end, shutdown);
    outcomes::lemma_asked_inside(s, b, c, end, Request::HangUp);
    lemma_gone_inside(s, d, end, end);
}

/// OpenOCD is ended by force only when it has had five seconds to end by itself, or when its state
/// cannot be read.
pub proof fn law_openocd_has_time_to_end(t: Trail)
    requires
        t.at >= 0,
    ensures
        session::reaped(t) matches (u, Err(Halt::Ask(Request::Kill))) ==> {
            &&& t.at < u.at <= t.replies.len()
            &&& t.replies[t.at] matches Reply::Number(first)
            &&& match t.replies[u.at - 1] {
                Reply::Number(now) => now >= first + 5000,
                Reply::Failed(_) => true,
                _ => false,
            }
        },
{
    reveal(session::reaped);
    if let (u, Ok(Ok(first))) = walk::ask_number(t, Request::Clock) {
        lemma_time_to_end(u, first + 5000);
    }
}

/// OpenOCD is ended by force only behind the deadline, or when its state cannot be read.
proof fn lemma_time_to_end(t: Trail, deadline: int)
    requires
        t.at >= 0,
    ensures
        session::reaped_by(t, deadline) matches (u, Err(Halt::Ask(Request::Kill))) ==> {
            &&& t.at < u.at <= t.replies.len()
            &&& match t.replies[u.at - 1] {
                Reply::Number(now) => now >= deadline,
                Reply::Failed(_) => true,
                _ => false,
            }
        },
    decreases t.left(),
{
    if let (u, Ok(Ok(now))) = walk::ask_number(t, Request::Clock) {
        if now < deadline {
            if let (v, Ok(Reply::Running)) = walk::ask(u, Request::Child) {
                if let (x, Ok(())) = walk::ask_act(v, Request::Sleep(50)) {
                    lemma_time_to_end(x, deadline);
                }
            }
        }
    }
}

/// A connection is tried for twenty seconds and no longer: it is tried only while OpenOCD runs and
/// the time is not over.
pub proof fn law_connection_is_tried_for_a_time(t: Trail, port: u16)
    requires
        t.at >= 0,
    ensures
        session::dialed(t, port) matches (u, Err(Halt::Ask(Request::Dial(dialed)))) ==> {
            &&& dialed == port
            &&& t.at + 2 < u.at <= t.replies.len()
            &&& t.replies[t.at] matches Reply::Number(first)
            &&& t.replies[u.at - 2] matches Reply::Number(now)
            &&& now < first + 20_000
            &&& t.replies[u.at - 1] is Running
        },
{
    reveal(session::dialed);
    if let (u, Ok(Ok(first))) = walk::ask_number(t, Request::Clock) {
        lemma_time_to_dial(u, port, first + 20_000);
    }
}

/// A connection is tried only before the deadline.
proof fn lemma_time_to_dial(t: Trail, port: u16, deadline: int)
    requires
        t.at >= 0,
    ensures
        session::dialed_by(t, port, deadline) matches (u, Err(Halt::Ask(Request::Dial(dialed)))) ==> {
            &&& dialed == port
            &&& t.at + 1 < u.at <= t.replies.len()
            &&& t.replies[u.at - 2] matches Reply::Number(now)
            &&& now < deadline
            &&& t.replies[u.at - 1] is Running
        },
    decreases t.left(),
{
    if let (u, Ok(Ok(now))) = walk::ask_number(t, Request::Clock) {
        if now < deadline {
            if let (v, Ok(Reply::Running)) = walk::ask(u, Request::Child) {
                if let (x, Ok(Err(_))) = walk::ask_done(v, Request::Dial(port)) {
                    if let (y, Ok(())) = walk::ask_act(x, Request::Sleep(100)) {
                        lemma_time_to_dial(y, port, deadline);
                    }
                }
            }
        }
    }
}

/// Whether a message tells of stalled debug access.
pub open spec fn is_stall(message: Seq<char>) -> bool {
    ||| text::occurs(message, "stalled AP operation"@)
    ||| text::occurs(message, "DAP transaction stalled"@)
    ||| text::occurs(message, "WAIT recovery"@)
}

/// Another attempt comes only behind a notice and a delay: half a second, or twenty seconds from the
/// second attempt on where the debug access has stalled.
pub proof fn law_retry_waits(t: Trail, options: OpenOcdOptions, restore: bool, attempt: u32)
    requires
        t.at >= 0,
        1 <= attempt <= 3,
    ensures
        session::next_attempt(t, options, restore, attempt) matches Some(next) ==> {
            &&& attempt < 3
            &&& session::attempted(t, options, restore).1 matches Err(Halt::Link(trouble))
            &&& trouble.retryable
            &&& outcomes::did_ask(
                t,
                next,
                Request::Sleep(
                    if attempt == 2 && is_stall(trouble.message) {
                        20_000
                    } else {
                        500
                    },
                ),
            )
        },
{
    promises::lemma_attempted(t, options, restore, Reach::Anything);
    if let Some(next) = session::next_attempt(t, options, restore, attempt) {
        let (u, outcome) = session::attempted(t, options, restore);
        let message = outcome->Err_0->Link_0.message;
        let delay = openocd::delay_before_retry(message, attempt);
        let notice = Request::Warn(session::retry_notice(attempt, delay));
        let (v, _) = walk::ask_act(u, notice);
        outcomes::lemma_act_asked(v, Request::Sleep(delay));
        outcomes::lemma_asked_inside(t, v, next, next, Request::Sleep(delay));
    }
}

/// A reply is over only with the end byte: it is never taken for whole because the connection was
/// closed or lost, and its text is that of all bytes that have come, without the end byte.
pub proof fn law_reply_is_over_with_its_end_byte(t: Trail, sofar: Seq<u8>)
    requires
        t.at >= 0,
    ensures
        session::received(t, sofar) matches (u, Ok(text)) ==> exists|bytes: Seq<u8>| #[trigger]
            came(t.replies, t.at, u.at, bytes) && (sofar + bytes).last() == 0x1a && text
                == tcl::reply_text((sofar + bytes).drop_last()),
    decreases t.left(),
{
    if let (end, Ok(text)) = session::received(t, sofar) {
        let (u, piece) = walk::ask_bytes(t, Request::Receive);
        let piece = piece->Ok_0->Ok_0;
        let all = sofar + piece;
        if all.last() == 0x1a {
            assert(came(t.replies, t.at, u.at, piece)) by {
                assert(came(t.replies, u.at, u.at, Seq::empty()));
                assert(piece =~= piece + Seq::<u8>::empty());
            }
        } else {
            law_reply_is_over_with_its_end_byte(u, all);
            let rest = choose|bytes: Seq<u8>| #[trigger]
                came(t.replies, u.at, end.at, bytes) && (all + bytes).last() == 0x1a && text
                    == tcl::reply_text((all + bytes).drop_last());
            assert(sofar + (piece + rest) =~= all + rest);
            assert(came(t.replies, t.at, end.at, piece + rest));
        }
    }
}

/// Whether some bytes came with the replies from one to another, each of which brought some.
pub open spec fn came(replies: Seq<Reply>, from: int, to: int, bytes: Seq<u8>) -> bool {
    bytes == bytes_between(replies, from, to) && brought(replies, from, to)
}

/// Whether each reply from one to another brought bytes.
pub open spec fn brought(replies: Seq<Reply>, from: int, to: int) -> bool {
    0 <= from <= to <= replies.len() && forall|i: int|
        from <= i < to ==> session::is_piece(#[trigger] replies[i])
}

/// The bytes of the replies from one to another.
pub open spec fn bytes_between(replies: Seq<Reply>, from: int, to: int) -> Seq<u8>
    decreases to - from,
{
    if from >= to {
        Seq::empty()
    } else {
        replies[from]->Bytes_0@ + bytes_between(replies, from + 1, to)
    }
}

/// The log in a message holds its last lines, in order, each on a line of its own: with one line
/// more in the log and in the message, this line stands behind the others.
pub proof fn law_log_in_a_message_ends_with_its_last_line(
    log: Seq<Seq<char>>,
    line: Seq<char>,
    count: nat,
)
    ensures
        openocd::log_tail(log.push(line), count + 1) == openocd::log_tail(log, count) + "\n  "@
            + line,
        openocd::log_tail(log, 0) == Seq::<char>::empty(),
        openocd::log_tail(Seq::empty(), count) == Seq::<char>::empty(),
{
    let longer = log.push(line);
    let from = if log.len() > count {
        log.len() - count
    } else {
        0
    };
    let tail = log.skip(from);
    assert(longer.skip(from) =~= tail.push(line));
    assert(tail.push(line).drop_last() =~= tail);
    if tail.len() == 0 {
        assert(tail.push(line) =~= seq![line]);
        assert(openocd::log_tail(longer, count + 1) =~= Seq::<char>::empty() + "\n  "@ + line);
    } else {
        assert(openocd::log_tail(longer, count + 1) =~= openocd::log_tail(log, count) + "\n  "@
            + line);
    }
    assert(log.skip(log.len() as int).len() == 0);
}

/// A wrapped command is put in a variable as it is, run with its output caught, and answered with its
/// result, the mark and its output.
pub proof fn law_wrapped_command_is_caught(tcl: Seq<char>)
    ensures
        tcl::wrapper(tcl) == "set __cmd "@ + tcl::literal(tcl)
            + "\nset __rc [catch [list capture $__cmd] __out]\nappend __rc \"\\n---SAM4E-OUT---\\n\" $__out"@,
{
    reveal_strlit("\nset __rc [catch [list capture $__cmd] __out]\nappend __rc \"\\n");
    reveal_strlit("---SAM4E-OUT---");
    reveal_strlit("\\n\" $__out");
    reveal_strlit(
        "\nset __rc [catch [list capture $__cmd] __out]\nappend __rc \"\\n---SAM4E-OUT---\\n\" $__out",
    );
    assert("\nset __rc [catch [list capture $__cmd] __out]\nappend __rc \"\\n"@
        + "---SAM4E-OUT---"@ + "\\n\" $__out"@
        =~= "\nset __rc [catch [list capture $__cmd] __out]\nappend __rc \"\\n---SAM4E-OUT---\\n\" $__out"@);
    assert(tcl::wrapper(tcl) =~= "set __cmd "@ + tcl::literal(tcl) + (
    "\nset __rc [catch [list capture $__cmd] __out]\nappend __rc \"\\n"@ + "---SAM4E-OUT---"@
        + "\\n\" $__out"@));
}

/// A reply to a wrapped command is a success only where it holds the mark; any other trouble with it
/// can be tried again.
pub proof fn law_reply_without_mark_is_no_success(raw: Seq<char>, tcl: Seq<char>)
    ensures
        match tcl::run_response(raw, tcl) {
            Ok(_) => text::occurs(raw, tcl::mark_line()),
            Err(trouble) => trouble.retryable,
        },
{
}

/// Trouble on the link can be tried again, and is told with the last lines of the log as OpenOCD has
/// written them.
pub proof fn law_lost_link_is_told_with_the_log(t: Trail, message: Seq<char>, count: nat)
    ensures
        session::link_trouble(t, message, count) matches (u, Halt::Link(trouble)) ==> {
            &&& trouble.retryable
            &&& exists|lines: Vec<String>|
                #[trigger] walk::told(t, u, Request::Log, Reply::Lines(lines)) && trouble.message
                    == message + openocd::log_tail(text::views(lines@), count)
        },
{
    if let (u, Halt::Link(trouble)) = session::link_trouble(t, message, count) {
        walk::lemma_told(t, Request::Log);
        let lines = walk::ask(t, Request::Log).1->Ok_0->Lines_0;
        assert(walk::told(t, u, Request::Log, Reply::Lines(lines)));
    }
}

} // verus!
