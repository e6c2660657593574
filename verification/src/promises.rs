//! What holds of the commands whatever the replies are.
use crate::chip;
use crate::chip::{EEFC_FCR, GET_DESCRIPTOR, GET_GPNVM};
use crate::commands;
use crate::commands::{BootMode, Cli, Commands, GpnvmCommand};
use crate::config;
use crate::config::{ConfigPlace, ImageEntry, PartEntry};
use crate::error::Failure;
use crate::flash;
use crate::flash::Plan;
use crate::image;
use crate::image::Part;
use crate::openocd::OpenOcdOptions;
use crate::session;
use crate::session::{Entry, ATTEMPTS, CURRENT_STATE};
use crate::target::ChipInfo;
use crate::tcl;
use crate::text;
use crate::walk;
use crate::walk::{Halt, Reply, Request, Trail};
use std::ops::Range;
use vstd::prelude::*;
use vstd::utf8::*;

verus! {

/// Whether bytes carry a wrapped command.
pub open spec fn carries(bytes: Seq<u8>, tcl: Seq<char>) -> bool {
    bytes == tcl::frame(tcl::wrapper(tcl))
}

/// Whether bytes ask for values in memory.
pub open spec fn asks_memory(bytes: Seq<u8>, address: u32, width: nat, count: nat) -> bool {
    bytes == tcl::frame(session::memory_request(address, width, count))
}

/// Whether a command writes memory to a file.
pub open spec fn dumps(tcl: Seq<char>, path: Seq<char>, address: u32, length: nat) -> bool {
    tcl == commands::dump_command(path, address, length)
}

/// Whether a command leaves flash and the GPNVM bits as they are: it looks for the target, halts
/// or resumes it, asks the flash controller for its descriptor or the GPNVM bits, or writes memory
/// to a file.
pub open spec fn only_looks(tcl: Seq<char>) -> bool {
    ||| tcl == "poll"@
    ||| tcl == "halt"@
    ||| tcl == "resume"@
    ||| tcl == session::write_request(EEFC_FCR, seq![GET_DESCRIPTOR])
    ||| tcl == session::write_request(EEFC_FCR, seq![GET_GPNVM])
    ||| is_dump(tcl)
}

/// Whether a command is one of a plan: it erases a range of the plan, writes or verifies a part of
/// it, or lets the target run after that.
pub open spec fn programs(tcl: Seq<char>, plan: Plan, given: Seq<Part>) -> bool {
    ||| tcl == "reset run"@
    ||| plan is Single && (tcl == given[0].write_command(true) || tcl == given[0].verify_command())
    ||| plan matches Plan::Ranges { ranges, parts } && {
        ||| exists|i: int|
            0 <= i < ranges.len() && tcl == image::erase_command(#[trigger] ranges[i])
        ||| exists|i: int|
            0 <= i < parts.len() && (tcl == (#[trigger] parts[i]).write_command(false) || tcl
                == parts[i].verify_command())
    }
}

/// How far a step may go with the target.
pub enum Reach {
    /// It only looks.
    Look,
    /// It looks, and it carries out a plan for the given parts.
    Program(Plan, Seq<Part>),
    /// It looks, and it runs commands of some sort.
    Allow(spec_fn(Seq<char>) -> bool),
    /// It does anything.
    Anything,
}

/// Whether a command may be sent because it only looks. Where only commands of some sort may be run,
/// the target is not resumed, and no memory is written to a file, unless these commands do that.
pub open spec fn may_look(reach: Reach, tcl: Seq<char>) -> bool {
    only_looks(tcl) && (reach is Allow ==> tcl != "resume"@ && !is_dump(tcl))
}

/// Whether a command writes memory to a file.
pub open spec fn is_dump(tcl: Seq<char>) -> bool {
    exists|path: Seq<char>, address: u32, length: nat| dumps(tcl, path, address, length)
}

/// Whether a step may resume the target.
pub open spec fn may_resume(reach: Reach) -> bool {
    reach is Allow ==> may_run(reach, "resume"@)
}

/// Whether bytes may be sent to OpenOCD.
pub open spec fn may_send(reach: Reach, bytes: Seq<u8>) -> bool {
    ||| reach is Anything
    ||| bytes == tcl::frame(CURRENT_STATE@)
    ||| bytes == session::shutdown_bytes()
    ||| exists|address: u32, width: nat, count: nat| asks_memory(bytes, address, width, count)
    ||| exists|tcl: Seq<char>| may_look(reach, tcl) && carries(bytes, tcl)
    ||| reach matches Reach::Program(plan, given) && exists|tcl: Seq<char>|
        programs(tcl, plan, given) && carries(bytes, tcl)
    ||| reach matches Reach::Allow(allowed) && exists|tcl: Seq<char>|
        allowed(tcl) && #[trigger] carries(bytes, tcl)
}

/// Whether something may be asked for.
pub open spec fn may_ask(reach: Reach, request: Request) -> bool {
    request matches Request::Send(bytes) ==> may_send(reach, bytes)
}

/// Whether a step uses replies in order, asks for something only when all have been used, and asks
/// for nothing beyond its reach.
pub open spec fn keeps_to<T>(t: Trail, step: (Trail, Result<T, Halt>), reach: Reach) -> bool {
    &&& walk::leads_to(t, step.0)
    &&& t.at <= t.replies.len() ==> step.0.at <= t.replies.len()
    &&& step.1 matches Err(Halt::Ask(request)) ==> step.0.at >= t.replies.len() && may_ask(
        reach,
        request,
    )
}

/// Whether a step keeps to its reach and deals with trouble on the link itself.
pub open spec fn settles<T>(t: Trail, step: (Trail, Result<T, Halt>), reach: Reach) -> bool {
    &&& keeps_to(t, step, reach)
    &&& !(step.1 matches Err(Halt::Link(_)))
}

/// Waiting for a reply keeps to looking.
pub(crate) proof fn lemma_received(t: Trail, sofar: Seq<u8>, reach: Reach)
    requires
        t.at >= 0,
    ensures
        keeps_to(t, session::received(t, sofar), reach),
    decreases t.left(),
{
    if let (u, Ok(Ok(bytes))) = walk::ask_bytes(t, Request::Receive) {
        let all = sofar + bytes;
        if bytes.len() > 0 && all.last() != tcl::RPC_EOM {
            lemma_received(u, all, reach);
        }
    }
}

/// An exchange keeps to what it sends.
pub(crate) proof fn lemma_exchange(t: Trail, script: Seq<char>, reach: Reach)
    requires
        t.at >= 0,
        may_send(reach, tcl::frame(script)),
    ensures
        keeps_to(t, session::exchange(t, script), reach),
{
    reveal(session::exchange);
    if let (u, Ok(Ok(()))) = walk::ask_done(t, Request::Send(tcl::frame(script))) {
        lemma_received(u, Seq::empty(), reach);
    }
}

/// A command keeps to itself.
pub(crate) proof fn lemma_run_link(t: Trail, tcl: Seq<char>, reach: Reach)
    requires
        t.at >= 0,
        may_send(reach, tcl::frame(tcl::wrapper(tcl))),
    ensures
        keeps_to(t, session::run_link(t, tcl), reach),
{
    reveal(session::run_link);
    lemma_exchange(t, tcl::wrapper(tcl), reach);
}

/// A command that neither resumes the target nor writes memory to a file may always be sent where it
/// only looks.
pub(crate) proof fn lemma_may_look(tcl: Seq<char>, reach: Reach)
    requires
        only_looks(tcl),
        tcl.len() > 0,
        tcl[0] != 'r',
        tcl[0] != 'd',
    ensures
        may_send(reach, tcl::frame(tcl::wrapper(tcl))),
{
    reveal_strlit("resume");
    reveal_strlit("dump_image ");
    assert(tcl != "resume"@);
    if is_dump(tcl) {
        let (path, address, length) = choose|path: Seq<char>, address: u32, length: nat|
            dumps(tcl, path, address, length);
        assert(commands::dump_command(path, address, length)[0] == "dump_image "@[0]);
    }
    assert(may_look(reach, tcl));
    assert(carries(tcl::frame(tcl::wrapper(tcl)), tcl));
}

/// A command that only looks may be sent where nothing is said of what is run, or where it may be
/// run.
pub(crate) proof fn lemma_may_look_or_run(tcl: Seq<char>, reach: Reach)
    requires
        only_looks(tcl),
        reach is Allow ==> may_run(reach, tcl),
    ensures
        may_send(reach, tcl::frame(tcl::wrapper(tcl))),
{
    if !(reach is Allow) {
        assert(may_look(reach, tcl));
    }
    assert(carries(tcl::frame(tcl::wrapper(tcl)), tcl));
}

/// Whether a step may run a command.
pub open spec fn may_run(reach: Reach, tcl: Seq<char>) -> bool {
    ||| reach is Anything
    ||| reach matches Reach::Allow(allowed) && allowed(tcl)
    ||| reach matches Reach::Program(plan, given) && programs(tcl, plan, given)
}

/// Whether a step may carry out a plan.
pub open spec fn may_carry_out(reach: Reach, plan: Plan, given: Seq<Part>, verify: bool) -> bool {
    match plan {
        Plan::Single => {
            &&& may_run(reach, given[0].write_command(true))
            &&& verify ==> may_run(reach, given[0].verify_command())
        },
        Plan::Ranges { ranges, parts } => {
            &&& forall|i: int|
                0 <= i < ranges.len() ==> may_run(reach, image::erase_command(#[trigger] ranges[i]))
            &&& forall|i: int|
                0 <= i < parts.len() ==> may_run(
                    reach,
                    (#[trigger] parts[i]).write_command(false),
                )
            &&& verify ==> forall|i: int|
                0 <= i < parts.len() ==> may_run(reach, (#[trigger] parts[i]).verify_command())
        },
    }
}

/// A command of a plan may be sent by what carries it out.
proof fn lemma_may_program(tcl: Seq<char>, reach: Reach)
    requires
        reach matches Reach::Program(plan, given) ==> programs(tcl, plan, given),
        reach is Program || reach is Anything,
    ensures
        may_send(reach, tcl::frame(tcl::wrapper(tcl))),
{
    assert(carries(tcl::frame(tcl::wrapper(tcl)), tcl));
}

/// A command that a step may run may be sent by it.
pub(crate) proof fn lemma_may_run(tcl: Seq<char>, reach: Reach)
    requires
        may_run(reach, tcl),
    ensures
        may_send(reach, tcl::frame(tcl::wrapper(tcl))),
{
    if reach is Allow {
        assert(carries(tcl::frame(tcl::wrapper(tcl)), tcl));
    } else {
        lemma_may_program(tcl, reach);
    }
}

/// Reading the state of the target keeps to looking.
pub(crate) proof fn lemma_state_link(t: Trail, reach: Reach)
    requires
        t.at >= 0,
    ensures
        keeps_to(t, session::value_link(t, CURRENT_STATE@), reach),
{
    reveal(session::value_link);
    lemma_exchange(t, CURRENT_STATE@, reach);
}

/// Running a command keeps to it.
pub(crate) proof fn lemma_run_of(t: Trail, tcl: Seq<char>, reach: Reach)
    requires
        t.at >= 0,
        may_send(reach, tcl::frame(tcl::wrapper(tcl))),
    ensures
        settles(t, session::run_of(t, tcl), reach),
{
    reveal(session::run_of);
    lemma_run_link(t, tcl, reach);
}

/// Reading memory keeps to looking.
pub(crate) proof fn lemma_memory_of(t: Trail, address: u32, width: nat, count: nat, reach: Reach)
    requires
        t.at >= 0,
    ensures
        settles(t, session::memory_of(t, address, width, count), reach),
{
    reveal(session::memory_of);
    reveal(session::value_of);
    reveal(session::value_link);
    let request = session::memory_request(address, width, count);
    assert(asks_memory(tcl::frame(request), address, width, count));
    lemma_exchange(t, request, reach);
}

/// Reading bytes keeps to looking.
pub(crate) proof fn lemma_bytes_of(t: Trail, address: u32, count: nat, reach: Reach)
    requires
        t.at >= 0,
    ensures
        settles(t, session::bytes_of(t, address, count), reach),
{
    reveal(session::bytes_of);
    lemma_memory_of(t, address, 8, count, reach);
}

/// Restoring the entry state keeps to looking.
pub(crate) proof fn lemma_restored_link(t: Trail, resume: bool, reach: Reach)
    requires
        t.at >= 0,
        resume ==> may_resume(reach),
    ensures
        keeps_to(t, session::restored_link(t, resume), reach),
{
    reveal(session::resumed);
    if resume {
        lemma_may_look_or_run("resume"@, reach);
        lemma_run_link(t, "resume"@, reach);
        if let (u, Ok(_)) = session::run_link(t, "resume"@) {
            lemma_state_link(u, reach);
        }
    }
}

/// Waiting for OpenOCD to end keeps to looking.
pub(crate) proof fn lemma_reaped_by(t: Trail, deadline: int, reach: Reach)
    requires
        t.at >= 0,
    ensures
        settles(t, session::reaped_by(t, deadline), reach),
    decreases t.left(),
{
    if let (u, Ok(Ok(now))) = walk::ask_number(t, Request::Clock) {
        if now < deadline {
            if let (v, Ok(Reply::Running)) = walk::ask(u, Request::Child) {
                if let (x, Ok(())) = walk::ask_act(v, Request::Sleep(50)) {
                    lemma_reaped_by(x, deadline, reach);
                }
            }
        }
    }
}

/// Ending OpenOCD keeps to looking.
pub(crate) proof fn lemma_reaped(t: Trail, reach: Reach)
    requires
        t.at >= 0,
    ensures
        settles(t, session::reaped(t), reach),
{
    reveal(session::reaped);
    if let (u, Ok(Ok(now))) = walk::ask_number(t, Request::Clock) {
        lemma_reaped_by(u, now + 5000, reach);
    }
}

/// Ending a session keeps to looking.
pub(crate) proof fn lemma_dropped(t: Trail, resume: bool, reach: Reach)
    requires
        t.at >= 0,
        resume ==> may_resume(reach),
    ensures
        settles(t, session::dropped(t, resume), reach),
{
    reveal(session::dropped);
    lemma_restored_link(t, resume, reach);
    let (u, _) = session::restored_link(t, resume);
    if let (v, Ok(())) = walk::ask_act(u, Request::Send(session::shutdown_bytes())) {
        if let (x, Ok(())) = walk::ask_act(v, Request::HangUp) {
            lemma_reaped(x, reach);
        }
    }
}

/// Connecting keeps to looking.
pub(crate) proof fn lemma_dialed_by(t: Trail, port: u16, deadline: int, reach: Reach)
    requires
        t.at >= 0,
    ensures
        keeps_to(t, session::dialed_by(t, port, deadline), reach),
    decreases t.left(),
{
    if let (u, Ok(Ok(now))) = walk::ask_number(t, Request::Clock) {
        if now < deadline {
            if let (v, Ok(Reply::Running)) = walk::ask(u, Request::Child) {
                if let (x, Ok(Err(_))) = walk::ask_done(v, Request::Dial(port)) {
                    if let (y, Ok(())) = walk::ask_act(x, Request::Sleep(100)) {
                        lemma_dialed_by(y, port, deadline, reach);
                    }
                }
            }
        }
    }
}

/// Starting OpenOCD keeps to looking.
pub(crate) proof fn lemma_started(t: Trail, options: OpenOcdOptions, reach: Reach)
    requires
        t.at >= 0,
    ensures
        keeps_to(t, session::started(t, options), reach),
{
    reveal(session::started);
    reveal(session::dialed);
    if let (u, Ok(Reply::Port(port))) = walk::ask(t, Request::ReservePort) {
        let args = crate::openocd::command_args(
            crate::openocd::startup_commands(options, Some(port), None),
        );
        if let (v, Ok(Ok(()))) = walk::ask_done(u, Request::Spawn(args)) {
            if let (x, Ok(Ok(now))) = walk::ask_number(v, Request::Clock) {
                lemma_dialed_by(x, port, now + 20_000, reach);
            }
            lemma_reaped(session::dialed(v, port).0, reach);
        }
    }
}

/// Finding and halting the target keeps to looking.
pub(crate) proof fn lemma_greeted(t: Trail, restore: bool, reach: Reach)
    requires
        t.at >= 0,
        restore ==> may_resume(reach),
    ensures
        keeps_to(t, (session::greeted(t, restore).0, session::greeted(t, restore).1), reach),
{
    reveal(session::greeted);
    reveal_strlit("poll");
    reveal_strlit("halt");
    lemma_may_look("poll"@, reach);
    lemma_run_link(t, "poll"@, reach);
    if let (u, Ok(_)) = session::run_link(t, "poll"@) {
        lemma_state_link(u, reach);
        if let (v, Ok(state)) = session::value_link(u, CURRENT_STATE@) {
            lemma_may_look("halt"@, reach);
            lemma_run_link(v, "halt"@, reach);
            let (x, _) = session::run_link(v, "halt"@);
            lemma_restored_link(x, restore && state == "running"@, reach);
        }
    }
}

/// One attempt to reach the target keeps to looking.
pub(crate) proof fn lemma_attempted(t: Trail, options: OpenOcdOptions, restore: bool, reach: Reach)
    requires
        t.at >= 0,
        restore ==> may_resume(reach),
    ensures
        keeps_to(t, session::attempted(t, options, restore), reach),
{
    reveal(session::attempted);
    lemma_started(t, options, reach);
    if let (u, Ok(())) = session::started(t, options) {
        lemma_greeted(u, restore, reach);
        let (v, _, resume) = session::greeted(u, restore);
        assert(resume ==> restore) by {
            reveal(session::greeted);
        }
        lemma_dropped(v, resume, reach);
    }
}

/// Reaching the target keeps to looking.
pub(crate) proof fn lemma_connected_from(
    t: Trail,
    options: OpenOcdOptions,
    restore: bool,
    attempt: u32,
    reach: Reach,
)
    requires
        t.at >= 0,
        restore ==> may_resume(reach),
    ensures
        settles(t, session::connected_from(t, options, restore, attempt), reach),
    decreases ATTEMPTS - attempt,
{
    lemma_attempted(t, options, restore, reach);
    if let (u, Err(Halt::Link(trouble))) = session::attempted(t, options, restore) {
        if trouble.retryable && attempt < ATTEMPTS {
            let delay = crate::openocd::delay_before_retry(trouble.message, attempt);
            let notice = session::retry_notice(attempt, delay);
            if let (v, Ok(())) = walk::ask_act(u, Request::Warn(notice)) {
                if let (x, Ok(())) = walk::ask_act(v, Request::Sleep(delay)) {
                    lemma_connected_from(x, options, restore, (attempt + 1) as u32, reach);
                }
            }
        }
    }
}

/// Reaching the target keeps to looking.
pub(crate) proof fn lemma_connected(t: Trail, options: OpenOcdOptions, restore: bool, reach: Reach)
    requires
        t.at >= 0,
        restore ==> may_resume(reach),
    ensures
        settles(t, session::connected(t, options, restore), reach),
{
    reveal(session::connected);
    lemma_connected_from(t, options, restore, 1, reach);
}

/// A command in a session keeps to its own reach.
pub(crate) proof fn lemma_in_session(
    t: Trail,
    options: OpenOcdOptions,
    restore: bool,
    body: spec_fn(Trail, Entry) -> (Trail, Result<(), Halt>),
    reach: Reach,
)
    requires
        t.at >= 0,
        restore ==> may_resume(reach),
        forall|u: Trail, entry: Entry| u.at >= 0 ==> settles(u, #[trigger] body(u, entry), reach),
    ensures
        settles(t, commands::in_session(t, options, restore, body), reach),
{
    lemma_connected(t, options, restore, reach);
    session::law_entry_state_is_known(t, options, restore);
    if let (u, Ok(entry)) = session::connected(t, options, restore) {
        let step = body(u, entry);
        lemma_dropped(step.0, entry.resume && step.1 is Err, reach);
    }
}

/// Reading the identity of the chip keeps to looking.
pub(crate) proof fn lemma_identity_read(t: Trail, reach: Reach)
    requires
        t.at >= 0,
    ensures
        settles(t, chip::identity_read(t), reach),
        settles(t, chip::chip_accepted(t), reach),
{
    reveal(chip::identity_read);
    reveal(chip::chip_accepted);
    lemma_memory_of(t, chip::CHIPID_CIDR, 32, 2, reach);
}

/// Reading the result register keeps to looking.
pub(crate) proof fn lemma_results_read(t: Trail, n: nat, reach: Reach)
    requires
        t.at >= 0,
    ensures
        settles(t, chip::results_read(t, n), reach),
    decreases n,
{
    if n > 0 {
        lemma_results_read(t, (n - 1) as nat, reach);
        if let (u, Ok(_)) = chip::results_read(t, (n - 1) as nat) {
            reveal(chip::result_read);
            lemma_memory_of(u, chip::EEFC_FRR, 32, 1, reach);
        }
    }
}

/// Asking the flash controller keeps to looking.
pub(crate) proof fn lemma_commanded(t: Trail, command: u32, reach: Reach)
    requires
        t.at >= 0,
        command == GET_DESCRIPTOR || command == GET_GPNVM,
    ensures
        settles(t, chip::commanded(t, command), reach),
{
    reveal(chip::commanded);
    reveal(session::written);
    let tcl = session::write_request(EEFC_FCR, seq![command]);
    reveal_strlit("write_memory ");
    assert(tcl[0] == "write_memory "@[0]);
    lemma_may_look(tcl, reach);
    lemma_run_of(t, tcl, reach);
}

/// Reading the flash descriptor keeps to looking.
pub(crate) proof fn lemma_descriptor_read(t: Trail, reach: Reach)
    requires
        t.at >= 0,
    ensures
        settles(t, chip::descriptor_read(t), reach),
{
    reveal(chip::descriptor_read);
    lemma_results_read(t, 4, reach);
    if let (u, Ok(head)) = chip::results_read(t, 4) {
        lemma_results_read(u, (head[3] + 2) as nat, reach);
    }
}

/// Reading the chip keeps to looking.
pub(crate) proof fn lemma_chip_read(t: Trail, reach: Reach)
    requires
        t.at >= 0,
    ensures
        settles(t, chip::chip_read(t), reach),
{
    reveal(chip::chip_read);
    lemma_identity_read(t, reach);
    if let (u, Ok(_)) = chip::identity_read(t) {
        lemma_commanded(u, GET_DESCRIPTOR, reach);
        if let (v, Ok(())) = chip::commanded(u, GET_DESCRIPTOR) {
            lemma_descriptor_read(v, reach);
        }
    }
}

/// Reading the GPNVM bits keeps to looking.
pub(crate) proof fn lemma_gpnvm_read(t: Trail, reach: Reach)
    requires
        t.at >= 0,
    ensures
        settles(t, chip::gpnvm_read(t), reach),
{
    reveal(chip::gpnvm_read);
    lemma_commanded(t, GET_GPNVM, reach);
    if let (u, Ok(())) = chip::commanded(t, GET_GPNVM) {
        reveal(chip::result_read);
        lemma_memory_of(u, chip::EEFC_FRR, 32, 1, reach);
    }
}

/// Leaving out repeated paths keeps to looking.
pub(crate) proof fn lemma_distinct_places(t: Trail, places: Seq<ConfigPlace>, n: nat, reach: Reach)
    requires
        t.at >= 0,
    ensures
        settles(t, config::distinct_places(t, places, n), reach),
    decreases n,
{
    if n > 0 {
        lemma_distinct_places(t, places, (n - 1) as nat, reach);
    }
}

/// Looking for a configuration file keeps to looking.
pub(crate) proof fn lemma_found_from(t: Trail, places: Seq<ConfigPlace>, i: nat, reach: Reach)
    requires
        t.at >= 0,
    ensures
        settles(t, config::found_from(t, places, i), reach),
    decreases places.len() - i,
{
    if i < places.len() {
        let request = Request::FindConfig(places[i as int]);
        if let (u, Ok(None)) = walk::ask_found(t, request) {
            lemma_found_from(u, places, i + 1, reach);
        }
    }
}

/// Loading the configuration keeps to looking.
pub(crate) proof fn lemma_loaded(t: Trail, explicit: Option<Seq<char>>, reach: Reach)
    requires
        t.at >= 0,
    ensures
        settles(t, config::loaded(t, explicit), reach),
{
    reveal(config::loaded);
    reveal(config::file_loaded);
    if let (u, Ok(Reply::Flag(beside))) = walk::ask(t, Request::FindExecutable) {
        if let (v, Ok(Ok(()))) = walk::ask_done(u, Request::FindCurrentDirectory) {
            if let (x, Ok(Reply::Environment(environment))) = walk::ask(
                v,
                Request::ReadEnvironment,
            ) {
                let listed = config::listed_places(explicit is Some, beside, environment);
                lemma_distinct_places(x, listed, listed.len(), reach);
                if let (y, Ok(places)) = config::distinct_places(x, listed, listed.len()) {
                    lemma_found_from(y, places, 0, reach);
                }
            }
        }
    }
}

/// Resolving paths keeps to looking.
pub(crate) proof fn lemma_all_resolved(t: Trail, parts: Seq<Part>, n: nat, reach: Reach)
    requires
        t.at >= 0,
    ensures
        settles(t, flash::all_resolved(t, parts, n), reach),
    decreases n,
{
    if n > 0 {
        lemma_all_resolved(t, parts, (n - 1) as nat, reach);
        reveal(flash::resolved);
    }
}

/// Preparing files keeps to looking.
pub(crate) proof fn lemma_prepared(
    t: Trail,
    target: Seq<char>,
    addr: Option<u32>,
    images: Seq<ImageEntry>,
    reach: Reach,
)
    requires
        t.at >= 0,
    ensures
        settles(t, flash::prepared(t, target, addr, images), reach),
{
    reveal(flash::prepared);
    reveal(flash::chosen);
    if let (u, Ok(parts)) = flash::chosen(t, target, addr, images) {
        lemma_all_resolved(u, parts, parts.len(), reach);
    }
}

/// Staging decoded bytes keeps to looking.
pub(crate) proof fn lemma_chunks_staged(
    t: Trail,
    file: Seq<char>,
    chunks: Seq<crate::ihex::Piece>,
    n: nat,
    reach: Reach,
)
    requires
        t.at >= 0,
    ensures
        settles(t, flash::chunks_staged(t, file, chunks, n), reach),
    decreases n,
{
    if n > 0 {
        lemma_chunks_staged(t, file, chunks, (n - 1) as nat, reach);
        reveal(flash::staged);
    }
}

/// Planning one file keeps to looking.
pub(crate) proof fn lemma_part_planned(t: Trail, part: Part, flash_end: u32, reach: Reach)
    requires
        t.at >= 0,
    ensures
        settles(t, flash::part_planned(t, part, flash_end), reach),
{
    reveal(flash::part_planned);
    reveal(flash::bin_planned);
    reveal(flash::elf_planned);
    reveal(flash::hex_planned);
    reveal(flash::contents);
    if let (u, Ok(data)) = flash::contents(t, part.file) {
        if let Ok(chunks) = crate::ihex::hex_image(data, crate::target::FLASH_BASE, flash_end) {
            lemma_chunks_staged(u, part.file, chunks, chunks.len(), reach);
        }
    }
}

/// Planning files keeps to looking.
pub(crate) proof fn lemma_all_planned(t: Trail, parts: Seq<Part>, n: nat, flash_end: u32, reach: Reach)
    requires
        t.at >= 0,
    ensures
        settles(t, flash::all_planned(t, parts, n, flash_end), reach),
    decreases n,
{
    if n > 0 {
        lemma_all_planned(t, parts, (n - 1) as nat, flash_end, reach);
        if let (u, Ok(_)) = flash::all_planned(t, parts, (n - 1) as nat, flash_end) {
            lemma_part_planned(u, parts[n - 1], flash_end, reach);
        }
    }
}

/// Planning keeps to looking.
pub(crate) proof fn lemma_planned(t: Trail, parts: Seq<Part>, flash_end: u32, reach: Reach)
    requires
        t.at >= 0,
    ensures
        settles(t, flash::planned(t, parts, flash_end), reach),
{
    reveal(flash::planned);
    lemma_all_planned(t, parts, parts.len(), flash_end, reach);
}

/// A command on flash keeps to itself.
pub(crate) proof fn lemma_flash_run(t: Trail, tcl: Seq<char>, reach: Reach)
    requires
        t.at >= 0,
        may_send(reach, tcl::frame(tcl::wrapper(tcl))),
    ensures
        settles(t, flash::flash_run(t, tcl), reach),
{
    reveal(flash::flash_run);
    lemma_run_of(t, tcl, reach);
}

/// Writing a part keeps to the command for it.
pub(crate) proof fn lemma_part_written(t: Trail, part: Part, erase: bool, reach: Reach)
    requires
        t.at >= 0,
        may_send(reach, tcl::frame(tcl::wrapper(part.write_command(erase)))),
    ensures
        settles(t, flash::part_written(t, part, erase), reach),
{
    reveal(flash::part_written);
    let notice = Request::Print("Programming "@ + part.label() + "..."@);
    if let (u, Ok(())) = walk::ask_act(t, notice) {
        lemma_flash_run(u, part.write_command(erase), reach);
    }
}

/// Verifying a part keeps to the command for it.
pub(crate) proof fn lemma_part_verified(t: Trail, part: Part, reach: Reach)
    requires
        t.at >= 0,
        may_send(reach, tcl::frame(tcl::wrapper(part.verify_command()))),
    ensures
        settles(t, flash::part_verified(t, part), reach),
{
    reveal(flash::part_verified);
    let notice = Request::Print("Verifying "@ + part.file + "..."@);
    if let (u, Ok(())) = walk::ask_act(t, notice) {
        lemma_flash_run(u, part.verify_command(), reach);
    }
}

/// Erasing the ranges of a plan keeps to the plan.
pub(crate) proof fn lemma_ranges_erased(t: Trail, ranges: Seq<Range<u32>>, n: nat, reach: Reach)
    requires
        t.at >= 0,
        n <= ranges.len(),
        forall|i: int|
            0 <= i < ranges.len() ==> may_run(reach, image::erase_command(#[trigger] ranges[i])),
    ensures
        settles(t, commands::ranges_erased(t, ranges, n), reach),
    decreases n,
{
    if n > 0 {
        lemma_ranges_erased(t, ranges, (n - 1) as nat, reach);
        if let (u, Ok(())) = commands::ranges_erased(t, ranges, (n - 1) as nat) {
            reveal(commands::range_erased);
            let range = ranges[n - 1];
            let notice = Request::Print(
                "Erasing "@ + text::hex8(range.start as nat) + "-"@ + text::hex8(
                    (range.end - 1) as nat,
                ) + "..."@,
            );
            if let (v, Ok(())) = walk::ask_act(u, notice) {
                lemma_may_run(image::erase_command(range), reach);
                lemma_flash_run(v, image::erase_command(range), reach);
            }
        }
    }
}

/// Writing the parts of a plan keeps to the plan.
pub(crate) proof fn lemma_parts_written(t: Trail, parts: Seq<Part>, n: nat, reach: Reach)
    requires
        t.at >= 0,
        n <= parts.len(),
        forall|i: int|
            0 <= i < parts.len() ==> may_run(reach, (#[trigger] parts[i]).write_command(false)),
    ensures
        settles(t, commands::parts_written(t, parts, n), reach),
    decreases n,
{
    if n > 0 {
        lemma_parts_written(t, parts, (n - 1) as nat, reach);
        if let (u, Ok(())) = commands::parts_written(t, parts, (n - 1) as nat) {
            lemma_may_run(parts[n - 1].write_command(false), reach);
            lemma_part_written(u, parts[n - 1], false, reach);
        }
    }
}

/// Verifying the parts of a plan keeps to the plan.
pub(crate) proof fn lemma_parts_verified(t: Trail, parts: Seq<Part>, n: nat, reach: Reach)
    requires
        t.at >= 0,
        n <= parts.len(),
        forall|i: int|
            0 <= i < parts.len() ==> may_run(reach, (#[trigger] parts[i]).verify_command()),
    ensures
        settles(t, commands::parts_verified(t, parts, n), reach),
    decreases n,
{
    if n > 0 {
        lemma_parts_verified(t, parts, (n - 1) as nat, reach);
        if let (u, Ok(())) = commands::parts_verified(t, parts, (n - 1) as nat) {
            lemma_may_run(parts[n - 1].verify_command(), reach);
            lemma_part_verified(u, parts[n - 1], reach);
        }
    }
}

/// Carrying out a plan keeps to it.
pub(crate) proof fn lemma_plan_done(t: Trail, plan: Plan, given: Seq<Part>, verify: bool, reach: Reach)
    requires
        t.at >= 0,
        may_carry_out(reach, plan, given, verify),
    ensures
        settles(t, commands::plan_done(t, plan, given, verify), reach),
{
    reveal(commands::plan_done);
    match plan {
        Plan::Single => {
            lemma_may_run(given[0].write_command(true), reach);
            lemma_part_written(t, given[0], true, reach);
            if let (u, Ok(())) = flash::part_written(t, given[0], true) {
                if verify {
                    lemma_may_run(given[0].verify_command(), reach);
                    lemma_part_verified(u, given[0], reach);
                }
            }
        },
        Plan::Ranges { ranges, parts } => {
            lemma_ranges_erased(t, ranges, ranges.len(), reach);
            if let (u, Ok(())) = commands::ranges_erased(t, ranges, ranges.len()) {
                lemma_parts_written(u, parts, parts.len(), reach);
                if let (v, Ok(())) = commands::parts_written(u, parts, parts.len()) {
                    if verify {
                        lemma_parts_verified(v, parts, parts.len(), reach);
                    }
                }
            }
        },
    }
}

/// Letting the target run keeps to carrying out a plan.
pub(crate) proof fn lemma_reset_to_run(t: Trail, notice: Seq<char>, reach: Reach)
    requires
        t.at >= 0,
        may_run(reach, "reset run"@),
    ensures
        settles(t, commands::reset_to_run(t, notice), reach),
{
    reveal(commands::reset_to_run);
    lemma_may_run("reset run"@, reach);
    lemma_run_of(t, "reset run"@, reach);
}

/// The plan for some parts that the replies lead to.
pub open spec fn parts_plan(t: Trail, parts: Seq<Part>) -> Option<Plan> {
    match chip::chip_read(t) {
        (_, Err(_)) => None,
        (u, Ok(chip)) => match flash::planned(u, parts, commands::end_of_flash(chip)) {
            (_, Err(_)) => None,
            (_, Ok(plan)) => Some(plan),
        },
    }
}

/// Writing files keeps to the plan for them, and to looking as long as there is none.
pub(crate) proof fn lemma_flash_done(t: Trail, parts: Seq<Part>, verify: bool, run_after: bool, reach: Reach)
    requires
        t.at >= 0,
        parts_plan(t, parts) matches Some(plan) ==> may_carry_out(reach, plan, parts, verify) && (
        run_after ==> may_run(reach, "reset run"@)),
    ensures
        settles(t, commands::flash_done(t, parts, verify, run_after), reach),
{
    reveal(commands::flash_done);
    lemma_chip_read(t, reach);
    if let (u, Ok(chip)) = chip::chip_read(t) {
        let end = commands::end_of_flash(chip);
        lemma_planned(u, parts, end, reach);
        if let (v, Ok(plan)) = flash::planned(u, parts, end) {
            lemma_plan_done(v, plan, parts, verify, reach);
            if let (x, Ok(())) = commands::plan_done(v, plan, parts, verify) {
                if run_after {
                    lemma_reset_to_run(x, "ok: reset, running"@, reach);
                }
            }
        }
    }
}

/// The parts of an image, and the plan for them, that the replies lead to: the configuration is
/// read, each part is checked and looked up, the target is reached and identified, and every file
/// is read whole.
pub open spec fn image_plan(
    t: Trail,
    options: OpenOcdOptions,
    explicit: Option<Seq<char>>,
    target: Seq<char>,
    addr: Option<Seq<char>>,
) -> Option<(Plan, Seq<Part>)> {
    match config::loaded(t, explicit) {
        (_, Err(_)) => None,
        (u, Ok(catalog)) => match commands::given_address(addr) {
            Err(_) => None,
            Ok(address) => match flash::prepared(u, target, address, catalog.images) {
                (_, Err(_)) => None,
                (v, Ok(parts)) => match session::connected(v, options, false) {
                    (_, Err(_)) => None,
                    (x, Ok(_)) => match parts_plan(x, parts) {
                        None => None,
                        Some(plan) => Some((plan, parts)),
                    },
                },
            },
        },
    }
}

/// The command that writes an image keeps to the plan for it, and to looking as long as there is
/// none.
pub(crate) proof fn lemma_flash_image(
    t: Trail,
    options: OpenOcdOptions,
    explicit: Option<Seq<char>>,
    target: Seq<char>,
    addr: Option<Seq<char>>,
    verify: bool,
    run_after: bool,
    reach: Reach,
)
    requires
        t.at >= 0,
        image_plan(t, options, explicit, target, addr) matches Some((plan, parts))
            ==> may_carry_out(reach, plan, parts, verify) && (run_after ==> may_run(
            reach,
            "reset run"@,
        )),
    ensures
        settles(
            t,
            commands::flash_image(t, options, explicit, target, addr, verify, run_after),
            reach,
        ),
{
    reveal(commands::flash_image);
    lemma_loaded(t, explicit, reach);
    if let (u, Ok(catalog)) = config::loaded(t, explicit) {
        if let Ok(address) = commands::given_address(addr) {
            lemma_prepared(u, target, address, catalog.images, reach);
            if let (v, Ok(parts)) = flash::prepared(u, target, address, catalog.images) {
                lemma_connected(v, options, false, reach);
                session::law_entry_state_is_known(v, options, false);
                if let (x, Ok(entry)) = session::connected(v, options, false) {
                    let step = commands::flash_done(x, parts, verify, run_after);
                    lemma_flash_done(x, parts, verify, run_after, reach);
                    lemma_dropped(step.0, entry.resume && step.1 is Err, reach);
                }
            }
        }
    }
}

/// Restoring the entry state behind a step keeps to looking.
pub(crate) proof fn lemma_then_restored(t: Trail, step: (Trail, Result<(), Halt>), entry: Entry, reach: Reach)
    requires
        t.at >= 0,
        may_resume(reach),
        keeps_to(t, step, reach),
    ensures
        keeps_to(t, commands::then_restored(step, entry), reach),
        keeps_to(
            t,
            (session::restored(step.0, entry.resume).0, session::restored(step.0, entry.resume).1),
            reach,
        ),
{
    lemma_restored_link(step.0, entry.resume, reach);
}

/// Showing the chip keeps to looking.
pub(crate) proof fn lemma_info(t: Trail, options: OpenOcdOptions, reach: Reach)
    requires
        t.at >= 0,
        may_resume(reach),
    ensures
        settles(t, commands::info(t, options), reach),
{
    reveal(commands::info);
    let body = |u: Trail, entry: Entry| commands::info_told(u, entry, options);
    assert forall|u: Trail, entry: Entry| u.at >= 0 implies settles(
        u,
        #[trigger] body(u, entry),
        reach,
    ) by {
        reveal(commands::info_told);
        lemma_chip_read(u, reach);
        if let (v, Ok(chip)) = chip::chip_read(u) {
            lemma_gpnvm_read(v, reach);
            if let (x, Ok(bits)) = chip::gpnvm_read(v) {
                let step = walk::ask_act(
                    x,
                    Request::Print(commands::info_text(chip, bits, entry.state, options)),
                );
                lemma_then_restored(u, step, entry, reach);
            }
        }
    }
    lemma_in_session(t, options, true, body, reach);
}

/// Listing a file of an image keeps to looking.
pub(crate) proof fn lemma_parts_listed(t: Trail, parts: Seq<PartEntry>, n: nat, reach: Reach)
    requires
        t.at >= 0,
    ensures
        settles(t, commands::parts_listed(t, parts, n), reach),
    decreases n,
{
    if n > 0 {
        lemma_parts_listed(t, parts, (n - 1) as nat, reach);
        reveal(commands::part_listed);
    }
}

/// Listing images keeps to looking.
pub(crate) proof fn lemma_images_listed(t: Trail, images: Seq<ImageEntry>, n: nat, reach: Reach)
    requires
        t.at >= 0,
    ensures
        settles(t, commands::images_listed(t, images, n), reach),
    decreases n,
{
    if n > 0 {
        lemma_images_listed(t, images, (n - 1) as nat, reach);
        if let (u, Ok(())) = commands::images_listed(t, images, (n - 1) as nat) {
            reveal(commands::image_listed);
            let image = images[n - 1];
            let heading = Request::Print(commands::image_heading(image));
            if let (v, Ok(())) = walk::ask_act(u, heading) {
                lemma_parts_listed(v, image.parts, image.parts.len(), reach);
            }
        }
    }
}

/// The command that lists images keeps to looking.
pub(crate) proof fn lemma_images(t: Trail, explicit: Option<Seq<char>>, reach: Reach)
    requires
        t.at >= 0,
    ensures
        settles(t, commands::images(t, explicit), reach),
{
    reveal(commands::images);
    lemma_loaded(t, explicit, reach);
    if let (u, Ok(catalog)) = config::loaded(t, explicit) {
        let heading = Request::Print(
            "Config: "@ + (match catalog.path {
                Some(path) => path,
                None => "none"@,
            }),
        );
        if let (v, Ok(())) = walk::ask_act(u, heading) {
            lemma_images_listed(v, catalog.images, catalog.images.len(), reach);
        }
    }
}

/// Changing a GPNVM bit can do anything.
pub(crate) proof fn lemma_gpnvm_changed(t: Trail, bit: u8, value: u8, reach: Reach)
    requires
        t.at >= 0,
        may_run(reach, commands::gpnvm_command(bit, value)),
    ensures
        settles(t, commands::gpnvm_changed(t, bit, value), reach),
{
    reveal(commands::gpnvm_changed);
    let command = commands::gpnvm_command(bit, value);
    lemma_may_run(command, reach);
    lemma_run_of(t, command, reach);
    if let (u, Ok(_)) = session::run_of(t, command) {
        if let (v, Ok(())) = walk::ask_act(u, Request::Sleep(50)) {
            lemma_gpnvm_read(v, reach);
        }
    }
}

/// Selecting the boot mode uses its replies in order.
pub(crate) proof fn lemma_boot(t: Trail, options: OpenOcdOptions, mode: BootMode, reset: bool, reach: Reach)
    requires
        t.at >= 0,
        !reset ==> may_resume(reach),
        may_run(reach, commands::gpnvm_command(1, commands::boot_bit(mode))),
        reset ==> may_run(reach, "reset run"@),
    ensures
        settles(t, commands::boot(t, options, mode, reset), reach),
{
    reveal(commands::boot);
    let body = |u: Trail, entry: Entry| commands::boot_done(u, entry, mode, reset);
    assert forall|u: Trail, entry: Entry| u.at >= 0 implies settles(
        u,
        #[trigger] body(u, entry),
        reach,
    ) by {
        reveal(commands::boot_done);
        lemma_identity_read(u, reach);
        if let (v, Ok(())) = chip::chip_accepted(u) {
            reveal(commands::boot_selected);
            lemma_gpnvm_read(v, reach);
            if let (x, Ok(_)) = chip::gpnvm_read(v) {
                lemma_gpnvm_changed(x, 1, commands::boot_bit(mode), reach);
            }
            let step = commands::boot_selected(v, mode);
            assert(settles(u, step, reach));
            if reset {
                lemma_reset_to_run(step.0, "ok: device reset"@, reach);
            } else {
                lemma_then_restored(u, step, entry, reach);
            }
        }
    }
    lemma_in_session(t, options, !reset, body, reach);
}

/// Showing the GPNVM bits keeps to looking.
pub(crate) proof fn lemma_gpnvm_show(t: Trail, options: OpenOcdOptions, reach: Reach)
    requires
        t.at >= 0,
        may_resume(reach),
    ensures
        settles(t, commands::gpnvm(t, options, GpnvmCommand::Show), reach),
{
    reveal(commands::gpnvm);
    let body = |u: Trail, entry: Entry| commands::gpnvm_told(u, entry);
    assert forall|u: Trail, entry: Entry| u.at >= 0 implies settles(
        u,
        #[trigger] body(u, entry),
        reach,
    ) by {
        reveal(commands::gpnvm_told);
        lemma_identity_read(u, reach);
        if let (v, Ok(())) = chip::chip_accepted(u) {
            lemma_gpnvm_read(v, reach);
            if let (x, Ok(bits)) = chip::gpnvm_read(v) {
                let step = walk::ask_act(
                    x,
                    Request::Print(crate::target::gpnvm_text(bits)),
                );
                lemma_then_restored(u, step, entry, reach);
            }
        }
    }
    lemma_in_session(t, options, true, body, reach);
}

/// Changing a GPNVM bit uses its replies in order.
pub(crate) proof fn lemma_gpnvm_change(t: Trail, options: OpenOcdOptions, bit: u8, value: u8, force: bool, reach: Reach)
    requires
        t.at >= 0,
        may_run(reach, commands::gpnvm_command(bit, value)),
    ensures
        settles(t, commands::gpnvm_change(t, options, bit, value, force), reach),
{
    reveal(commands::gpnvm_change);
    let body = |u: Trail, entry: Entry| commands::gpnvm_written(u, bit, value);
    assert forall|u: Trail, entry: Entry| u.at >= 0 implies settles(
        u,
        #[trigger] body(u, entry),
        reach,
    ) by {
        reveal(commands::gpnvm_written);
        lemma_identity_read(u, reach);
        if let (v, Ok(())) = chip::chip_accepted(u) {
            lemma_gpnvm_read(v, reach);
            if let (x, Ok(_)) = chip::gpnvm_read(v) {
                lemma_gpnvm_changed(x, bit, value, reach);
            }
        }
    }
    lemma_in_session(t, options, false, body, reach);
}

/// Asking the user keeps to looking.
pub(crate) proof fn lemma_confirmed(t: Trail, prompt: Seq<char>, reach: Reach)
    requires
        t.at >= 0,
    ensures
        settles(t, commands::confirmed(t, prompt), reach),
{
    reveal(commands::confirmed);
}

/// Erasing uses its replies in order.
pub(crate) proof fn lemma_erase(
    t: Trail,
    options: OpenOcdOptions,
    start: Option<Seq<char>>,
    end: Option<Seq<char>>,
    yes: bool,
    reach: Reach,
)
    requires
        t.at >= 0,
        forall|a: Option<u32>, b: Option<u32>, chip: ChipInfo|
            commands::given_address(start) == Ok::<Option<u32>, Failure>(a)
                && commands::given_address(end) == Ok::<Option<u32>, Failure>(b)
                && chip.flash.wf() ==> (#[trigger] commands::erasure(a, b, chip) matches Ok(erasure) ==> may_run(
                reach,
                erasure.command,
            )),
    ensures
        settles(t, commands::erase(t, options, start, end, yes), reach),
{
    reveal(commands::erase);
    if let (Ok(a), Ok(b)) = (commands::given_address(start), commands::given_address(end)) {
        if let Ok(question) = commands::erase_question(a, b) {
            lemma_confirmed(t, question, reach);
            let u = if yes {
                t
            } else {
                commands::confirmed(t, question).0
            };
            let body = |v: Trail, entry: Entry| commands::erase_done(v, a, b);
            assert forall|v: Trail, entry: Entry| v.at >= 0 implies settles(
                v,
                #[trigger] body(v, entry),
                reach,
            ) by {
                reveal(commands::erase_done);
                lemma_chip_read(v, reach);
                if let (x, Ok(chip)) = chip::chip_read(v) {
                    if let Ok(erasure) = commands::erasure(a, b, chip) {
                        let notice = Request::Print("Erasing "@ + erasure.what + "..."@);
                        if let (y, Ok(())) = walk::ask_act(x, notice) {
                            chip::law_chip_is_sound(v);
                            lemma_may_run(erasure.command, reach);
                            lemma_flash_run(y, erasure.command, reach);
                        }
                    }
                }
            }
            lemma_in_session(u, options, false, body, reach);
        }
    }
}

/// Reading memory keeps to looking.
pub(crate) proof fn lemma_read(
    t: Trail,
    options: OpenOcdOptions,
    addr: Seq<char>,
    length: Seq<char>,
    out: Option<Seq<char>>,
    reach: Reach,
)
    requires
        t.at >= 0,
        may_resume(reach),
        forall|address: u32, count: usize, path: Seq<char>|
            reach is Allow && out is Some && commands::read_range(addr, length) == Ok::<
                (u32, usize),
                Failure,
            >((address, count)) ==> may_run(
                reach,
                #[trigger] commands::dump_command(path, address, count as nat),
            ),
    ensures
        settles(t, commands::read(t, options, addr, length, out), reach),
{
    reveal(commands::read);
    if let Ok((address, count)) = commands::read_range(addr, length) {
        reveal(commands::output_found);
        if let (u, Ok(path)) = commands::output_found(t, out) {
            assert(path is Some ==> out is Some);
            let body = |v: Trail, entry: Entry|
                commands::read_done(v, entry, address, count, path);
            assert forall|v: Trail, entry: Entry| v.at >= 0 implies settles(
                v,
                #[trigger] body(v, entry),
                reach,
            ) by {
                reveal(commands::read_done);
                lemma_identity_read(v, reach);
                if let (x, Ok(())) = chip::chip_accepted(v) {
                    let step = match path {
                        Some(path) => commands::memory_saved(x, address, count, path),
                        None => commands::memory_shown(x, address, count),
                    };
                    if let Some(path) = path {
                        reveal(commands::memory_saved);
                        let tcl = commands::dump_command(path, address, count as nat);
                        assert(dumps(tcl, path, address, count as nat));
                        lemma_may_look_or_run(tcl, reach);
                        let notice = Request::Print(
                            "Reading "@ + text::decimal(count as nat) + " bytes from "@
                                + text::hex8(address as nat) + "..."@,
                        );
                        if let (y, Ok(())) = walk::ask_act(x, notice) {
                            lemma_run_of(y, tcl, reach);
                        }
                    } else {
                        reveal(commands::memory_shown);
                        lemma_bytes_of(x, address, count as nat, reach);
                    }
                    lemma_then_restored(v, step, entry, reach);
                }
            }
            lemma_in_session(u, options, true, body, reach);
        }
    }
}

/// Running a command on the supported chip keeps to the command.
pub(crate) proof fn lemma_run_and_tell(t: Trail, tcl: Seq<char>, notice: Seq<char>, reach: Reach)
    requires
        t.at >= 0,
        may_send(reach, tcl::frame(tcl::wrapper(tcl))),
    ensures
        settles(t, commands::run_and_tell(t, tcl, notice), reach),
{
    reveal(commands::run_and_tell);
    lemma_identity_read(t, reach);
    if let (u, Ok(())) = chip::chip_accepted(t) {
        lemma_run_of(u, tcl, reach);
    }
}

/// Resetting uses its replies in order.
pub(crate) proof fn lemma_reset(t: Trail, options: OpenOcdOptions, halt: bool, reach: Reach)
    requires
        t.at >= 0,
        may_run(
            reach,
            if halt {
                "reset halt"@
            } else {
                "reset run"@
            },
        ),
    ensures
        settles(t, commands::reset(t, options, halt), reach),
{
    reveal(commands::reset);
    let body = |u: Trail, entry: Entry|
        if halt {
            commands::run_and_tell(u, "reset halt"@, "ok: reset (halted)"@)
        } else {
            commands::run_and_tell(u, "reset run"@, "ok: reset (running)"@)
        };
    assert forall|u: Trail, entry: Entry| u.at >= 0 implies settles(
        u,
        #[trigger] body(u, entry),
        reach,
    ) by {
        if halt {
            lemma_may_run("reset halt"@, reach);
            lemma_run_and_tell(u, "reset halt"@, "ok: reset (halted)"@, reach);
        } else {
            lemma_may_run("reset run"@, reach);
            lemma_run_and_tell(u, "reset run"@, "ok: reset (running)"@, reach);
        }
    }
    lemma_in_session(t, options, false, body, reach);
}

/// Halting and resuming keep to looking.
pub(crate) proof fn lemma_halt_and_resume(t: Trail, options: OpenOcdOptions, reach: Reach)
    requires
        t.at >= 0,
    ensures
        settles(t, commands::halt(t, options), reach),
        may_resume(reach) ==> settles(t, commands::resume(t, options), reach),
{
    reveal(commands::halt);
    reveal(commands::resume);
    let halting = |u: Trail, entry: Entry| commands::halt_told(u);
    assert forall|u: Trail, entry: Entry| u.at >= 0 implies settles(
        u,
        #[trigger] halting(u, entry),
        reach,
    ) by {
        reveal(commands::halt_told);
        reveal(session::value_of);
        lemma_identity_read(u, reach);
        if let (v, Ok(())) = chip::chip_accepted(u) {
            lemma_state_link(v, reach);
        }
    }
    lemma_in_session(t, options, false, halting, reach);
    let resuming = |u: Trail, entry: Entry|
        commands::run_and_tell(u, "resume"@, "ok: running"@);
    if may_resume(reach) {
        assert forall|u: Trail, entry: Entry| u.at >= 0 implies settles(
            u,
            #[trigger] resuming(u, entry),
            reach,
        ) by {
            lemma_may_look_or_run("resume"@, reach);
            lemma_run_and_tell(u, "resume"@, "ok: running"@, reach);
        }
        lemma_in_session(t, options, false, resuming, reach);
    }
}

/// Running a GDB server keeps to looking.
pub(crate) proof fn lemma_gdb(t: Trail, options: OpenOcdOptions, port: u16, reach: Reach)
    requires
        t.at >= 0,
        may_resume(reach),
    ensures
        settles(t, commands::gdb(t, options, port), reach),
{
    reveal(commands::gdb);
    let body = |u: Trail, entry: Entry| commands::chip_found(u, entry);
    assert forall|u: Trail, entry: Entry| u.at >= 0 implies settles(
        u,
        #[trigger] body(u, entry),
        reach,
    ) by {
        reveal(commands::chip_found);
        lemma_identity_read(u, reach);
        lemma_then_restored(u, chip::chip_accepted(u), entry, reach);
    }
    lemma_in_session(t, options, true, body, reach);
    reveal(commands::served);
}

/// Running Tcl uses its replies in order.
pub(crate) proof fn lemma_raw(t: Trail, options: OpenOcdOptions, command: Seq<Seq<char>>, reach: Reach)
    requires
        t.at >= 0,
        may_run(reach, text::joined(command, " "@)),
    ensures
        settles(t, commands::raw(t, options, command), reach),
{
    reveal(commands::raw);
    let tcl = text::joined(command, " "@);
    let body = |u: Trail, entry: Entry| commands::raw_done(u, text::joined(command, " "@));
    assert forall|u: Trail, entry: Entry| u.at >= 0 implies settles(
        u,
        #[trigger] body(u, entry),
        reach,
    ) by {
        reveal(commands::raw_done);
        lemma_may_run(tcl, reach);
        lemma_run_of(u, tcl, reach);
    }
    let warning = Request::Warn("warning: raw bypasses all jog safety checks"@);
    if let (u, Ok(())) = walk::ask_act(t, warning) {
        lemma_in_session(u, options, false, body, reach);
    }
}

/// Configuration commands keep to looking.
pub(crate) proof fn lemma_config_commands(t: Trail, explicit: bool, reach: Reach)
    requires
        t.at >= 0,
    ensures
        settles(t, config::directory_printed(t), reach),
        settles(t, commands::config_started(t, explicit), reach),
{
    reveal(config::directory_printed);
    reveal(config::user_place_found);
    reveal(commands::config_started);
    reveal(config::config_initialized);
    reveal(config::config_created);
    reveal(config::parent_created);
}

/// Every command uses its replies in order.
pub(crate) proof fn lemma_executed(t: Trail, cli: Cli)
    requires
        t.at >= 0,
    ensures
        settles(t, commands::executed(t, cli), Reach::Anything),
{
    reveal(commands::executed);
    let reach = Reach::Anything;
    let explicit = text::maybe(cli.config);
    match cli.command {
        Commands::ConfigDirectory => lemma_config_commands(t, cli.config is Some, reach),
        Commands::ConfigInit => lemma_config_commands(t, cli.config is Some, reach),
        Commands::Info => lemma_info(t, cli.options, reach),
        Commands::Images => lemma_images(t, explicit, reach),
        Commands::Flash { target, addr, verify, run_after } => lemma_flash_image(
            t,
            cli.options,
            explicit,
            target@,
            text::maybe(addr),
            verify,
            run_after,
            reach,
        ),
        Commands::Boot { mode, reset } => lemma_boot(t, cli.options, mode, reset, reach),
        Commands::Gpnvm(command) => {
            reveal(commands::gpnvm);
            lemma_gpnvm_show(t, cli.options, reach);
            match command {
                GpnvmCommand::Show => {},
                GpnvmCommand::SetBit { bit, force } => lemma_gpnvm_change(
                    t,
                    cli.options,
                    bit,
                    1,
                    force,
                    reach,
                ),
                GpnvmCommand::ClearBit { bit } => lemma_gpnvm_change(
                    t,
                    cli.options,
                    bit,
                    0,
                    false,
                    reach,
                ),
            }
        },
        Commands::Erase { start, end, yes } => lemma_erase(
            t,
            cli.options,
            text::maybe(start),
            text::maybe(end),
            yes,
            reach,
        ),
        Commands::Read { address, length, out } => lemma_read(
            t,
            cli.options,
            address@,
            length@,
            text::maybe(out),
            reach,
        ),
        Commands::Reset { halt } => lemma_reset(t, cli.options, halt, reach),
        Commands::Halt => lemma_halt_and_resume(t, cli.options, reach),
        Commands::Resume => lemma_halt_and_resume(t, cli.options, reach),
        Commands::Gdb { port } => lemma_gdb(t, cli.options, port, reach),
        Commands::Raw { command } => lemma_raw(
            t,
            cli.options,
            text::views(command@),
            reach,
        ),
    }
}

/// A command asks for one thing at a time: it has used every reply when it asks for something, so
/// that the next reply answers what was asked.
pub proof fn law_each_reply_answers_its_question(cli: Cli, replies: Seq<Reply>)
    ensures
        ({
            let (u, outcome) = commands::executed(walk::start(replies), cli);
            &&& u.replies == replies
            &&& 0 <= u.at <= replies.len()
            &&& outcome matches Err(Halt::Ask(_)) ==> u.at == replies.len()
        }),
{
    lemma_executed(walk::start(replies), cli);
}

/// How the commands that only look begin.
pub(crate) proof fn lemma_only_looks(tcl: Seq<char>)
    requires
        only_looks(tcl),
    ensures
        tcl.len() > 0,
        tcl[0] != 'f',
        tcl[0] != 'a',
{
    reveal_strlit("poll");
    reveal_strlit("halt");
    reveal_strlit("resume");
    reveal_strlit("write_memory ");
    reveal_strlit("dump_image ");
    if exists|path: Seq<char>, address: u32, length: nat| dumps(tcl, path, address, length) {
        let (path, address, length) = choose|path: Seq<char>, address: u32, length: nat|
            dumps(tcl, path, address, length);
        assert(tcl[0] == "dump_image "@[0]);
    }
}

/// How the commands of a plan begin.
pub(crate) proof fn lemma_programs(tcl: Seq<char>, plan: Plan, given: Seq<Part>)
    requires
        programs(tcl, plan, given),
    ensures
        tcl.len() > 0,
        tcl[0] != 'a',
{
    reveal_strlit("reset run");
    reveal_strlit("flash erase_address pad unlock ");
    reveal_strlit("flash write_image");
    reveal_strlit("verify_image ");
}

/// Bytes that carry a command are none of the plain requests.
pub(crate) proof fn lemma_wrapped_is_not_plain(bytes: Seq<u8>, tcl: Seq<char>)
    requires
        carries(bytes, tcl),
    ensures
        bytes != tcl::frame(CURRENT_STATE@),
        bytes != session::shutdown_bytes(),
        forall|address: u32, width: nat, count: nat| !asks_memory(bytes, address, width, count),
{
    tcl::lemma_wrapper_begins(tcl);
    let script = tcl::wrapper(tcl);
    reveal_strlit("$_TARGETNAME curstate");
    reveal_strlit("shutdown");
    reveal_strlit("read_memory ");
    if bytes == tcl::frame(CURRENT_STATE@) {
        tcl::law_frame_is_injective(script, CURRENT_STATE@);
    }
    if bytes == session::shutdown_bytes() {
        tcl::law_frame_is_injective(script, "shutdown"@);
    }
    assert forall|address: u32, width: nat, count: nat| !asks_memory(
        bytes,
        address,
        width,
        count,
    ) by {
        if asks_memory(bytes, address, width, count) {
            let request = session::memory_request(address, width, count);
            tcl::law_frame_is_injective(script, request);
            assert(request[0] == "read_memory "@[0]);
        }
    }
}

/// What is sent by looking or programming carries no command that begins as the commands for the
/// GPNVM bits do, and by looking none that begins as the commands for flash do.
pub(crate) proof fn lemma_reach_is_kept(bytes: Seq<u8>, reach: Reach, tcl: Seq<char>)
    requires
        may_send(reach, bytes),
        reach is Look || reach is Program,
        carries(bytes, tcl),
    ensures
        tcl.len() > 0,
        tcl[0] != 'a',
        reach is Look ==> tcl[0] != 'f',
{
    lemma_wrapped_is_not_plain(bytes, tcl);
    if exists|other: Seq<char>| may_look(reach, other) && carries(bytes, other) {
        let other = choose|other: Seq<char>| may_look(reach, other) && carries(bytes, other);
        tcl::law_request_carries_one_command(tcl, other);
        lemma_only_looks(other);
    } else {
        let (plan, given) = (reach->Program_0, reach->Program_1);
        let other = choose|other: Seq<char>|
            programs(other, plan, given) && carries(bytes, other);
        tcl::law_request_carries_one_command(tcl, other);
        lemma_programs(other, plan, given);
    }
}

/// Whether bytes tell OpenOCD to erase or write flash.
pub open spec fn changes_flash(bytes: Seq<u8>) -> bool {
    ||| exists|range: Range<u32>| carries(bytes, #[trigger] image::erase_command(range))
    ||| exists|part: Part, erase: bool| carries(bytes, #[trigger] part.write_command(erase))
    ||| exists|start: Option<u32>, end: Option<u32>, chip: ChipInfo|
        (#[trigger] commands::erasure(start, end, chip)) matches Ok(erasure) && carries(
            bytes,
            erasure.command,
        )
}

/// Whether bytes tell OpenOCD to set or clear a GPNVM bit.
pub open spec fn changes_gpnvm(bytes: Seq<u8>) -> bool {
    exists|bit: u8, value: u8| carries(bytes, #[trigger] commands::gpnvm_command(bit, value))
}

/// What is sent by looking neither changes flash nor a GPNVM bit.
pub(crate) proof fn lemma_looking(bytes: Seq<u8>)
    requires
        may_send(Reach::Look, bytes),
    ensures
        !changes_flash(bytes),
        !changes_gpnvm(bytes),
{
    lemma_programming(bytes, Reach::Look);
    reveal_strlit("flash erase_address pad unlock ");
    reveal_strlit("flash write_image");
    reveal_strlit("flash erase_sector 0 0 last");
    reveal_strlit("flash erase_address ");
    if exists|range: Range<u32>| carries(bytes, #[trigger] image::erase_command(range)) {
        let range = choose|range: Range<u32>|
            carries(bytes, #[trigger] image::erase_command(range));
        lemma_reach_is_kept(bytes, Reach::Look, image::erase_command(range));
        assert(image::erase_command(range)[0] == "flash erase_address pad unlock "@[0]);
    }
    if exists|part: Part, erase: bool| carries(bytes, #[trigger] part.write_command(erase)) {
        let (part, erase) = choose|part: Part, erase: bool|
            carries(bytes, #[trigger] part.write_command(erase));
        lemma_reach_is_kept(bytes, Reach::Look, part.write_command(erase));
        assert(part.write_command(erase)[0] == "flash write_image"@[0]);
    }
    assert forall|start: Option<u32>, end: Option<u32>, chip: ChipInfo|
        (#[trigger] commands::erasure(start, end, chip)) matches Ok(erasure) implies !carries(
        bytes,
        commands::erasure(start, end, chip)->Ok_0.command,
    ) by {
        let command = commands::erasure(start, end, chip)->Ok_0.command;
        assert(command[0] == 'f');
        if carries(bytes, command) {
            lemma_reach_is_kept(bytes, Reach::Look, command);
        }
    }
}

/// What is sent by programming changes no GPNVM bit.
pub(crate) proof fn lemma_programming(bytes: Seq<u8>, reach: Reach)
    requires
        may_send(reach, bytes),
        reach is Look || reach is Program,
    ensures
        !changes_gpnvm(bytes),
{
    reveal_strlit("at91sam4 gpnvm ");
    if changes_gpnvm(bytes) {
        let (bit, value) = choose|bit: u8, value: u8|
            carries(bytes, #[trigger] commands::gpnvm_command(bit, value));
        lemma_reach_is_kept(bytes, reach, commands::gpnvm_command(bit, value));
        assert(commands::gpnvm_command(bit, value)[0] == "at91sam4 gpnvm "@[0]);
    }
}

/// Trouble on the link to OpenOCD is dealt with inside a command: a command succeeds, fails, asks for
/// something, or meets a reply that does not fit.
pub proof fn law_link_trouble_does_not_escape(cli: Cli, t: Trail)
    requires
        t.at >= 0,
    ensures
        !(commands::executed(t, cli).1 matches Err(Halt::Link(_))),
{
    lemma_executed(t, cli);
}

/// Whether a command is one that leaves flash and the GPNVM bits as they are.
pub open spec fn is_read_only(command: Commands) -> bool {
    match command {
        Commands::ConfigDirectory => true,
        Commands::ConfigInit => true,
        Commands::Info => true,
        Commands::Images => true,
        Commands::Gpnvm(GpnvmCommand::Show) => true,
        Commands::Read { .. } => true,
        Commands::Halt => true,
        Commands::Resume => true,
        Commands::Gdb { .. } => true,
        _ => false,
    }
}

/// A command that only reads sends nothing to OpenOCD that changes flash or the GPNVM bits.
pub proof fn law_reading_commands_change_nothing(cli: Cli, t: Trail)
    requires
        t.at >= 0,
        is_read_only(cli.command),
    ensures
        commands::executed(t, cli).1 matches Err(Halt::Ask(Request::Send(bytes)))
            ==> !changes_flash(bytes) && !changes_gpnvm(bytes),
{
    reveal(commands::executed);
    let reach = Reach::Look;
    let explicit = text::maybe(cli.config);
    match cli.command {
        Commands::ConfigDirectory => lemma_config_commands(t, cli.config is Some, reach),
        Commands::ConfigInit => lemma_config_commands(t, cli.config is Some, reach),
        Commands::Info => lemma_info(t, cli.options, reach),
        Commands::Images => lemma_images(t, explicit, reach),
        Commands::Gpnvm(_) => lemma_gpnvm_show(t, cli.options, reach),
        Commands::Read { address, length, out } => lemma_read(
            t,
            cli.options,
            address@,
            length@,
            text::maybe(out),
            reach,
        ),
        Commands::Halt => lemma_halt_and_resume(t, cli.options, reach),
        Commands::Resume => lemma_halt_and_resume(t, cli.options, reach),
        Commands::Gdb { port } => lemma_gdb(t, cli.options, port, reach),
        _ => {},
    }
    if let Err(Halt::Ask(Request::Send(bytes))) = commands::executed(t, cli).1 {
        lemma_looking(bytes);
    }
}

/// Writing an image changes flash only when the whole plan is made: up to then, nothing that is
/// sent erases or writes. What erases and writes flash then is one of the commands of that plan.
/// The GPNVM bits, and with them the boot source, stay as they are.
pub proof fn law_image_is_checked_before_flash_is_changed(cli: Cli, t: Trail)
    requires
        t.at >= 0,
    ensures
        cli.command matches Commands::Flash { target, addr, .. }
            ==> commands::executed(t, cli).1 matches Err(Halt::Ask(Request::Send(bytes))) ==> {
            let plan = image_plan(
                t,
                cli.options,
                text::maybe(cli.config),
                target@,
                text::maybe(addr),
            );
            &&& changes_flash(bytes) ==> {
                &&& plan matches Some((plan, parts))
                &&& exists|tcl: Seq<char>| programs(tcl, plan, parts) && carries(bytes, tcl)
            }
            &&& !changes_gpnvm(bytes)
        },
{
    if let Commands::Flash { target, addr, verify, run_after } = cli.command {
        reveal(commands::executed);
        let explicit = text::maybe(cli.config);
        let reach = match image_plan(t, cli.options, explicit, target@, text::maybe(addr)) {
            None => Reach::Look,
            Some((plan, parts)) => Reach::Program(plan, parts),
        };
        lemma_flash_image(
            t,
            cli.options,
            explicit,
            target@,
            text::maybe(addr),
            verify,
            run_after,
            reach,
        );
        if let Err(Halt::Ask(Request::Send(bytes))) = commands::executed(t, cli).1 {
            lemma_programming(bytes, reach);
            if may_send(Reach::Look, bytes) {
                lemma_looking(bytes);
            }
        }
    }
}

/// Whether something is asked for to learn what the user wants, or to say that nothing was done.
pub open spec fn is_dialogue(request: Request) -> bool {
    ||| request is InputIsTerminal
    ||| request is ErrorIsTerminal
    ||| request is Prompt
    ||| request is ReadLine
    ||| request is Print
}

/// Whether the user has agreed to an erase.
pub open spec fn agreed_to_erase(
    t: Trail,
    start: Option<Seq<char>>,
    end: Option<Seq<char>>,
) -> bool {
    match (commands::given_address(start), commands::given_address(end)) {
        (Ok(a), Ok(b)) => match commands::erase_question(a, b) {
            Ok(question) => commands::confirmed(t, question).1 == Ok::<bool, Halt>(true),
            Err(_) => false,
        },
        _ => false,
    }
}

/// An erase without `--yes` goes no further than asking the user, as long as the user has not
/// answered yes on a terminal.
pub proof fn law_erase_waits_for_the_user(cli: Cli, t: Trail)
    ensures
        cli.command matches Commands::Erase { start, end, yes: false }
            ==> commands::executed(t, cli).1 matches Err(Halt::Ask(request)) ==> is_dialogue(request)
            || agreed_to_erase(t, text::maybe(start), text::maybe(end)),
{
    reveal(commands::executed);
    reveal(commands::erase);
    reveal(commands::confirmed);
}

/// Whether what the user gave can be told to be wrong without a look at the target: a GPNVM bit
/// that is not defined or needs `--force`, an address or a range that does not make sense.
pub open spec fn is_wrong_by_itself(command: Commands) -> bool {
    match command {
        Commands::Gpnvm(GpnvmCommand::SetBit { bit, force }) => bit > 1 || bit == 0 && !force,
        Commands::Gpnvm(GpnvmCommand::ClearBit { bit }) => bit > 1,
        Commands::Erase { start, end, .. } => match (
            commands::given_address(text::maybe(start)),
            commands::given_address(text::maybe(end)),
        ) {
            (Ok(Some(a)), Ok(Some(b))) => a >= b,
            (Ok(_), Ok(_)) => false,
            _ => true,
        },
        Commands::Read { address, length, .. } => commands::read_range(address@, length@) is Err,
        _ => false,
    }
}

/// What is wrong by itself is rejected before OpenOCD is started: the command fails and asks for
/// nothing at all.
pub proof fn law_wrong_input_is_rejected_at_once(cli: Cli, t: Trail)
    requires
        is_wrong_by_itself(cli.command),
    ensures
        commands::executed(t, cli).0 == t,
        commands::executed(t, cli).1 matches Err(halt) && halt is Fail,
{
    reveal(commands::executed);
    reveal(commands::gpnvm);
    reveal(commands::gpnvm_change);
    reveal(commands::erase);
    reveal(commands::read);
}

/// A command that is to leave the target as it was found, and fails, still tries to resume a target
/// that was running before the session ends.
pub proof fn law_running_target_is_resumed_after_a_failure(
    t: Trail,
    options: OpenOcdOptions,
    body: spec_fn(Trail, Entry) -> (Trail, Result<(), Halt>),
    begin: Trail,
    entry: Entry,
    end: Trail,
    failure: Failure,
)
    requires
        session::connected(t, options, true) == (begin, Ok::<Entry, Halt>(entry)),
        entry.state == "running"@,
        body(begin, entry) == (end, Err::<(), Halt>(Halt::Fail(failure))),
    ensures
        ({
            let outcome = commands::in_session(t, options, true, body);
            &&& outcome.1 matches Err(Halt::Fail(_)) ==> {
                &&& outcome.1 == Err::<(), Halt>(Halt::Fail(failure))
                &&& !(session::resumed(end).1 matches Err(Halt::Ask(_)))
                &&& !(session::resumed(end).1 matches Err(Halt::Stray))
            }
            &&& session::resumed(end).1 matches Err(Halt::Ask(request)) ==> outcome.1 == Err::<
                (),
                Halt,
            >(Halt::Ask(request))
        }),
{
    session::law_entry_state_is_known(t, options, true);
    reveal(session::dropped);
    session::lemma_dropped_never_fails(end, true);
}

} // verus!
