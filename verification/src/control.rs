//! What holds of the commands that control the target once they have succeeded, and what they send.
use vstd::prelude::*;

use crate::chip;
use crate::commands;
use crate::commands::{BootMode, Cli, Commands, GpnvmCommand};
use crate::links;
use crate::openocd::OpenOcdOptions;
use crate::outcomes;
use crate::promises;
use crate::promises::Reach;
use crate::readings;
use crate::session;
use crate::session::{Entry, CURRENT_STATE};
use crate::target;
use crate::target::{ChipInfo, Gpnvm};
use crate::text;
use crate::walk;
use crate::walk::{Halt, Reply, Request, Trail};
use crate::wording;

verus! {

/// Whether the boot source was found selected between two points of a walk and, where asked for, the
/// target was reset after that.
pub open spec fn did_boot(t: Trail, u: Trail, mode: BootMode, reset: bool) -> bool {
    exists|w: Trail|
        (#[trigger] outcomes::reads_bit(t, w, u, 1, outcomes::source_bit(mode))) && (reset
            ==> outcomes::has_run(chip::gpnvm_read(w).0, u, "reset run"@))
}

/// A boot source is selected only when the bit for it was read with the value for it. Where a reset
/// is asked for, it has been carried out after that.
pub proof fn law_boot_selects_and_resets(cli: Cli, t: Trail)
    requires
        t.at >= 0,
        commands::executed(t, cli).1 is Ok,
    ensures
        cli.command matches Commands::Boot { mode, reset } ==> did_boot(
            t,
            commands::executed(t, cli).0,
            mode,
            reset,
        ),
{
    if let Commands::Boot { mode, reset } = cli.command {
        let reach = Reach::Anything;
        let end = commands::executed(t, cli).0;
        reveal(commands::executed);
        reveal(commands::boot);
        let body = |u: Trail, entry: Entry| commands::boot_done(u, entry, mode, reset);
        assert forall|u: Trail, entry: Entry| u.at >= 0 implies promises::settles(
            u,
            #[trigger] body(u, entry),
            reach,
        ) by {
            reveal(commands::boot_done);
            promises::lemma_identity_read(u, reach);
            if let (v, Ok(())) = chip::chip_accepted(u) {
                outcomes::lemma_boot_selected(v, mode);
                let step = commands::boot_selected(v, mode);
                promises::lemma_then_restored(u, step, entry, reach);
                promises::lemma_reset_to_run(step.0, "ok: device reset"@, reach);
            }
        }
        outcomes::lemma_session_succeeded(t, cli.options, !reset, body);
        let (u, entry) = session::connected(t, cli.options, !reset);
        let entry = entry->Ok_0;
        reveal(commands::boot_done);
        promises::lemma_identity_read(u, reach);
        let (v, _) = chip::chip_accepted(u);
        outcomes::lemma_boot_selected(v, mode);
        outcomes::law_selected_boot_source_is_read_back(v, mode);
        let (x, _) = commands::boot_selected(v, mode);
        let w = choose|w: Trail|
            outcomes::reads_bit(v, w, x, 1, outcomes::source_bit(mode));
        let (z, _) = body(u, entry);
        assert(walk::leads_to(x, z)) by {
            promises::lemma_restored_link(x, entry.resume, reach);
            promises::lemma_reset_to_run(x, "ok: device reset"@, reach);
        }
        assert(outcomes::reads_bit(t, w, end, 1, outcomes::source_bit(mode)));
        if reset {
            reveal(commands::reset_to_run);
            promises::lemma_run_of(x, "reset run"@, reach);
            outcomes::lemma_run_has_run(x, "reset run"@);
            let (y, _) = session::run_of(x, "reset run"@);
            outcomes::lemma_has_run_inside(chip::gpnvm_read(w).0, x, y, end, "reset run"@);
        }
    }
}

/// Selecting a boot source sends nothing but the command for its bit, what only watches, and the reset
/// where asked for, else what resumes the target.
pub proof fn law_boot_sends_nothing_else(cli: Cli, t: Trail)
    requires
        t.at >= 0,
    ensures
        cli.command matches Commands::Boot { mode, reset } ==> outcomes::sends_only(
            cli,
            t,
            |tcl: Seq<char>|
                wording::turns(tcl, 1, mode is Flash) || tcl == if reset {
                    "reset run"@
                } else {
                    "resume"@
                },
        ),
{
    if let Commands::Boot { mode, reset } = cli.command {
        let allowed = |tcl: Seq<char>|
            wording::turns(tcl, 1, mode is Flash) || tcl == if reset {
                "reset run"@
            } else {
                "resume"@
            };
        wording::law_gpnvm_command_names_its_bit(1, commands::boot_bit(mode));
        promises::lemma_boot(t, cli.options, mode, reset, Reach::Allow(allowed));
        reveal(commands::executed);
        outcomes::lemma_sends_only(cli, t, allowed);
    }
}

/// The bit and the value that a GPNVM command asks for.
pub open spec fn wanted_bit(command: GpnvmCommand) -> Option<(u8, u8)> {
    match command {
        GpnvmCommand::Show => None,
        GpnvmCommand::SetBit { bit, .. } => Some((bit, 1)),
        GpnvmCommand::ClearBit { bit, .. } => Some((bit, 0)),
    }
}

/// Whether a GPNVM command insists on its change.
pub open spec fn is_forced(command: GpnvmCommand) -> bool {
    match command {
        GpnvmCommand::SetBit { force, .. } => force,
        _ => false,
    }
}

/// Whether a GPNVM bit was changed and read back between two points of a walk.
pub open spec fn did_turn(t: Trail, u: Trail, bit: u8, value: u8) -> bool {
    exists|w: Trail, tcl: Seq<char>|
        outcomes::reads_bit(t, w, u, bit, value) && wording::turns(tcl, bit as nat, value == 1)
            && #[trigger] outcomes::has_run(t, w, tcl) && outcomes::did_ask(
            t,
            w,
            Request::Sleep(50),
        )
}

/// A change of a GPNVM bit succeeds only when the command for this bit and this value has run and
/// the bit was then read with this value.
pub proof fn law_gpnvm_bit_is_changed(cli: Cli, t: Trail)
    requires
        t.at >= 0,
        commands::executed(t, cli).1 is Ok,
    ensures
        cli.command matches Commands::Gpnvm(command) ==> {
            wanted_bit(command) matches Some((bit, value)) ==> did_turn(
                t,
                commands::executed(t, cli).0,
                bit,
                value,
            )
        },
{
    if let Commands::Gpnvm(command) = cli.command {
        if let Some((bit, value)) = wanted_bit(command) {
            let reach = Reach::Anything;
            let end = commands::executed(t, cli).0;
            reveal(commands::executed);
            reveal(commands::gpnvm);
            reveal(commands::gpnvm_change);
            let body = |u: Trail, entry: Entry| commands::gpnvm_written(u, bit, value);
            assert forall|u: Trail, entry: Entry| u.at >= 0 implies promises::settles(
                u,
                #[trigger] body(u, entry),
                reach,
            ) by {
                reveal(commands::gpnvm_written);
                promises::lemma_identity_read(u, reach);
                if let (v, Ok(())) = chip::chip_accepted(u) {
                    promises::lemma_gpnvm_read(v, reach);
                    if let (x, Ok(_)) = chip::gpnvm_read(v) {
                        promises::lemma_gpnvm_changed(x, bit, value, reach);
                    }
                }
            }
            outcomes::lemma_session_succeeded(t, cli.options, false, body);
            let (u, entry) = session::connected(t, cli.options, false);
            let (z, _) = body(u, entry->Ok_0);
            outcomes::law_changed_bit_is_read_back(u, bit, value);
            let (w, tcl) = choose|w: Trail, tcl: Seq<char>|
                outcomes::reads_bit(u, w, z, bit, value) && (value <= 1 ==> wording::turns(
                    tcl,
                    bit as nat,
                    value == 1,
                )) && #[trigger] outcomes::has_run(u, w, tcl) && outcomes::did_ask(
                    u,
                    w,
                    Request::Sleep(50),
                );
            outcomes::lemma_asked_inside(t, u, w, w, Request::Sleep(50));
            assert(outcomes::reads_bit(t, w, end, bit, value));
            outcomes::lemma_has_run_inside(t, u, w, w, tcl);
        }
    }
}

/// A change of a GPNVM bit sends nothing but the command for this bit and this value, and what only
/// watches; without force, the security bit is never set. Showing the bits may resume the target.
pub proof fn law_gpnvm_sends_nothing_else(cli: Cli, t: Trail)
    requires
        t.at >= 0,
    ensures
        cli.command matches Commands::Gpnvm(command) ==> outcomes::sends_only(
            cli,
            t,
            |tcl: Seq<char>|
                match wanted_bit(command) {
                    Some((bit, value)) => {
                        &&& wording::turns(tcl, bit as nat, value == 1)
                        &&& bit == 0 && value == 1 ==> is_forced(command)
                    },
                    None => tcl == "resume"@,
                },
        ),
{
    if let Commands::Gpnvm(command) = cli.command {
        let allowed = |tcl: Seq<char>|
            match wanted_bit(command) {
                Some((bit, value)) => {
                    &&& wording::turns(tcl, bit as nat, value == 1)
                    &&& bit == 0 && value == 1 ==> is_forced(command)
                },
                None => tcl == "resume"@,
            };
        reveal(commands::executed);
        if let Some((bit, value)) = wanted_bit(command) {
            wording::law_gpnvm_command_names_its_bit(bit, value);
            reveal(commands::gpnvm);
            if bit == 0 && value == 1 && !is_forced(command) {
                reveal(commands::gpnvm_change);
                assert(commands::executed(t, cli).0 == t);
            } else {
                assert(allowed(commands::gpnvm_command(bit, value)));
                promises::lemma_gpnvm_change(
                    t,
                    cli.options,
                    bit,
                    value,
                    is_forced(command),
                    Reach::Allow(allowed),
                );
            }
        } else {
            reveal(commands::gpnvm);
            promises::lemma_gpnvm_show(t, cli.options, Reach::Allow(allowed));
        }
        outcomes::lemma_sends_only(cli, t, allowed);
    }
}

/// A command that runs one thing on the target has run it once it has succeeded.
proof fn lemma_told_has_run(
    t: Trail,
    options: OpenOcdOptions,
    tcl: Seq<char>,
    notice: Seq<char>,
    body: spec_fn(Trail, Entry) -> (Trail, Result<(), Halt>),
)
    requires
        t.at >= 0,
        forall|u: Trail, entry: Entry|
            #[trigger] body(u, entry) == commands::run_and_tell(u, tcl, notice),
        commands::in_session(t, options, false, body).1 is Ok,
    ensures
        outcomes::has_run(t, commands::in_session(t, options, false, body).0, tcl),
{
    let reach = Reach::Anything;
    let end = commands::in_session(t, options, false, body).0;
    assert forall|u: Trail, entry: Entry| u.at >= 0 implies promises::settles(
        u,
        #[trigger] body(u, entry),
        reach,
    ) by {
        promises::lemma_run_and_tell(u, tcl, notice, reach);
    }
    outcomes::lemma_session_succeeded(t, options, false, body);
    let (u, entry) = session::connected(t, options, false);
    assert(body(u, entry->Ok_0) == commands::run_and_tell(u, tcl, notice));
    reveal(commands::run_and_tell);
    promises::lemma_identity_read(u, reach);
    let (v, _) = chip::chip_accepted(u);
    promises::lemma_run_of(v, tcl, reach);
    outcomes::lemma_run_has_run(v, tcl);
    let (x, _) = session::run_of(v, tcl);
    outcomes::lemma_has_run_inside(t, v, x, end, tcl);
}

/// A reset succeeds only when the target was reset, to halt or to run as the user says. A resume
/// succeeds only when the target was resumed.
pub proof fn law_reset_and_resume_are_carried_out(cli: Cli, t: Trail)
    requires
        t.at >= 0,
        commands::executed(t, cli).1 is Ok,
    ensures
        cli.command matches Commands::Reset { halt } ==> outcomes::has_run(
            t,
            commands::executed(t, cli).0,
            if halt {
                "reset halt"@
            } else {
                "reset run"@
            },
        ),
        cli.command is Resume ==> outcomes::has_run(t, commands::executed(t, cli).0, "resume"@),
{
    reveal(commands::executed);
    if let Commands::Reset { halt } = cli.command {
        reveal(commands::reset);
        let body = |u: Trail, entry: Entry|
            if halt {
                commands::run_and_tell(u, "reset halt"@, "ok: reset (halted)"@)
            } else {
                commands::run_and_tell(u, "reset run"@, "ok: reset (running)"@)
            };
        if halt {
            lemma_told_has_run(t, cli.options, "reset halt"@, "ok: reset (halted)"@, body);
        } else {
            lemma_told_has_run(t, cli.options, "reset run"@, "ok: reset (running)"@, body);
        }
    } else if cli.command is Resume {
        reveal(commands::resume);
        let body = |u: Trail, entry: Entry| commands::run_and_tell(u, "resume"@, "ok: running"@);
        lemma_told_has_run(t, cli.options, "resume"@, "ok: running"@, body);
    }
}

/// A reset sends nothing but the reset that the user asks for, and what only watches. A halt only
/// watches, and so does a resume but for what resumes the target.
pub proof fn law_reset_sends_nothing_else(cli: Cli, t: Trail)
    requires
        t.at >= 0,
    ensures
        cli.command matches Commands::Reset { halt } ==> outcomes::sends_only(
            cli,
            t,
            |tcl: Seq<char>|
                tcl == if halt {
                    "reset halt"@
                } else {
                    "reset run"@
                },
        ),
        cli.command is Halt ==> outcomes::sends_only(cli, t, |tcl: Seq<char>| false),
        cli.command is Resume ==> outcomes::sends_only(cli, t, |tcl: Seq<char>| tcl == "resume"@),
{
    reveal(commands::executed);
    if let Commands::Reset { halt } = cli.command {
        let allowed = |tcl: Seq<char>|
            tcl == if halt {
                "reset halt"@
            } else {
                "reset run"@
            };
        promises::lemma_reset(t, cli.options, halt, Reach::Allow(allowed));
        outcomes::lemma_sends_only(cli, t, allowed);
    } else if cli.command is Halt {
        let nothing = |tcl: Seq<char>| false;
        promises::lemma_halt_and_resume(t, cli.options, Reach::Allow(nothing));
        outcomes::lemma_sends_only(cli, t, nothing);
    } else if cli.command is Resume {
        let resuming = |tcl: Seq<char>| tcl == "resume"@;
        promises::lemma_halt_and_resume(t, cli.options, Reach::Allow(resuming));
        outcomes::lemma_sends_only(cli, t, resuming);
    }
}

/// Whether the state of the target was read between two points of a walk.
pub open spec fn did_read_state(t: Trail, u: Trail, state: Seq<char>) -> bool {
    exists|w: Trail|
        walk::leads_to(t, w) && walk::leads_to(
            (#[trigger] session::value_of(w, CURRENT_STATE@)).0,
            u,
        ) && session::value_of(w, CURRENT_STATE@).1 == Ok::<Seq<char>, Halt>(state)
}

/// Whether the state of the target was shown between two points of a walk as it was read.
pub open spec fn did_show_state(t: Trail, u: Trail) -> bool {
    exists|state: Seq<char>|
        (#[trigger] did_read_state(t, u, state)) && outcomes::did_ask(
            t,
            u,
            Request::Print("ok: core "@ + state),
        )
}

/// A session begins with a halt.
proof fn lemma_session_halts(t: Trail, options: OpenOcdOptions, restore: bool, attempt: u32)
    requires
        t.at >= 0,
        1 <= attempt <= session::ATTEMPTS,
        session::connected_from(t, options, restore, attempt).1 is Ok,
    ensures
        outcomes::has_run(t, session::connected_from(t, options, restore, attempt).0, "halt"@),
    decreases session::ATTEMPTS - attempt,
{
    let reach = Reach::Anything;
    promises::lemma_attempted(t, options, restore, reach);
    match session::attempted(t, options, restore) {
        (u, Err(Halt::Link(trouble))) => {
            let delay = crate::openocd::delay_before_retry(trouble.message, attempt);
            let notice = Request::Warn(session::retry_notice(attempt, delay));
            let (v, _) = walk::ask_act(u, notice);
            let (x, _) = walk::ask_act(v, Request::Sleep(delay));
            lemma_session_halts(x, options, restore, (attempt + 1) as u32);
            let (y, _) = session::connected_from(x, options, restore, (attempt + 1) as u32);
            outcomes::lemma_has_run_inside(t, x, y, y, "halt"@);
        },
        (end, _) => {
            reveal(session::attempted);
            reveal(session::greeted);
            promises::lemma_started(t, options, reach);
            let (u, _) = session::started(t, options);
            promises::lemma_run_link(u, "poll"@, reach);
            let (v, _) = session::run_link(u, "poll"@);
            promises::lemma_state_link(v, reach);
            let (x, _) = session::value_link(v, CURRENT_STATE@);
            promises::lemma_run_link(x, "halt"@, reach);
            reveal(session::run_of);
            outcomes::lemma_run_has_run(x, "halt"@);
            outcomes::lemma_has_run_inside(t, x, end, end, "halt"@);
        },
    }
}

/// A halt succeeds only when the target was told to halt, and the state that is shown is the one that
/// was read from it.
pub proof fn law_halt_shows_the_state(cli: Cli, t: Trail)
    requires
        t.at >= 0,
        cli.command is Halt,
        commands::executed(t, cli).1 is Ok,
    ensures
        did_show_state(t, commands::executed(t, cli).0),
        outcomes::has_run(t, commands::executed(t, cli).0, "halt"@),
{
    let reach = Reach::Anything;
    let end = commands::executed(t, cli).0;
    reveal(commands::executed);
    reveal(commands::halt);
    let body = |u: Trail, entry: Entry| commands::halt_told(u);
    assert forall|u: Trail, entry: Entry| u.at >= 0 implies promises::settles(
        u,
        #[trigger] body(u, entry),
        reach,
    ) by {
        reveal(commands::halt_told);
        reveal(session::value_of);
        promises::lemma_identity_read(u, reach);
        if let (v, Ok(())) = chip::chip_accepted(u) {
            promises::lemma_state_link(v, reach);
        }
    }
    outcomes::lemma_session_succeeded(t, cli.options, false, body);
    let (u, entry) = session::connected(t, cli.options, false);
    reveal(commands::halt_told);
    promises::lemma_identity_read(u, reach);
    let (v, _) = chip::chip_accepted(u);
    promises::lemma_state_link(v, reach);
    let (x, state) = session::value_of(v, CURRENT_STATE@);
    assert(walk::leads_to(v, x)) by {
        reveal(session::value_of);
    }
    let request = Request::Print("ok: core "@ + state->Ok_0);
    outcomes::lemma_act_asked(x, request);
    let (y, _) = walk::ask_act(x, request);
    outcomes::lemma_asked_inside(t, x, y, end, request);
    assert(did_read_state(t, end, state->Ok_0)) by {
        assert(walk::leads_to(session::value_of(v, CURRENT_STATE@).0, end));
    }
    reveal(session::connected);
    lemma_session_halts(t, cli.options, false, 1);
    outcomes::lemma_has_run_inside(t, t, u, end, "halt"@);
}

/// Whether arguments make OpenOCD run a command.
pub open spec fn hands_over(args: Seq<Seq<char>>, command: Seq<char>) -> bool {
    exists|i: int| 0 <= i < args.len() - 1 && args[i] == "-c"@ && #[trigger] args[i + 1] == command
}

/// Whether OpenOCD has served debuggers between two points of a walk, on a port and as the user
/// chose, and has ended well.
pub open spec fn did_serve(t: Trail, u: Trail, options: OpenOcdOptions, port: u16) -> bool {
    exists|args: Seq<Seq<char>>|
        (#[trigger] walk::told(t, u, Request::Serve(args), Reply::Ended(Some(0i32))))
            && links::is_told(args, options, None, Some(port))
}

/// Serving debuggers succeeds only when OpenOCD was started with the port that the user names, after
/// the target was brought back to the state in which it was found, and has ended with code zero.
pub proof fn law_gdb_is_served_on_the_named_port(cli: Cli, t: Trail)
    requires
        t.at >= 0,
        commands::executed(t, cli).1 is Ok,
    ensures
        cli.command matches Commands::Gdb { port } ==> exists|x: Trail, y: Trail|
            #[trigger] outcomes::is_brought_back(t, t, x, y, cli.options) && did_serve(
                y,
                commands::executed(t, cli).0,
                cli.options,
                port,
            ),
{
    if let Commands::Gdb { port } = cli.command {
        let reach = Reach::Anything;
        let end = commands::executed(t, cli).0;
        reveal(commands::executed);
        reveal(commands::gdb);
        reveal(commands::served);
        let body = |u: Trail, entry: Entry| commands::chip_found(u, entry);
        assert forall|u: Trail, entry: Entry| u.at >= 0 implies promises::settles(
            u,
            #[trigger] body(u, entry),
            reach,
        ) by {
            reveal(commands::chip_found);
            promises::lemma_identity_read(u, reach);
            promises::lemma_then_restored(u, chip::chip_accepted(u), entry, reach);
        }
        outcomes::lemma_session_succeeded(t, cli.options, true, body);
        let (a, entry) = session::connected(t, cli.options, true);
        reveal(commands::chip_found);
        promises::lemma_identity_read(a, reach);
        let (x, _) = chip::chip_accepted(a);
        promises::lemma_restored_link(x, entry->Ok_0.resume, reach);
        let (b, _) = session::restored(x, entry->Ok_0.resume);
        let (u, _) = commands::in_session(t, cli.options, true, body);
        outcomes::lemma_brought_back(t, t, x, b, u, cli.options);
        let (v, _) = walk::ask_act(u, Request::Print(commands::gdb_notice(port)));
        let list = crate::openocd::startup_commands(cli.options, None, Some(port));
        let args = crate::openocd::command_args(list);
        let request = Request::Serve(args);
        walk::lemma_told(v, request);
        let reply = walk::ask(v, request).1->Ok_0;
        assert(reply == Reply::Ended(Some(0i32)));
        walk::lemma_told_inside(u, v, end, end, request, reply);
        links::law_options_are_handed_over(cli.options, None, Some(port));
        assert(did_serve(u, end, cli.options, port));
    }
}

/// Whether a command has run between two points of a walk, and its output was then printed where it
/// has any.
pub open spec fn did_run_and_print(t: Trail, w: Trail, u: Trail, tcl: Seq<char>) -> bool {
    &&& walk::leads_to(t, w)
    &&& outcomes::has_run(w, u, tcl)
    &&& session::run_of(w, tcl) matches (x, Ok(output)) && (output.len() > 0 ==> outcomes::did_ask(
        x,
        u,
        Request::Print(output),
    ))
}

/// A raw command succeeds only when the words of the user, with a space between each two, have run.
/// What OpenOCD answers is printed.
pub proof fn law_raw_command_has_run(cli: Cli, t: Trail)
    requires
        t.at >= 0,
        commands::executed(t, cli).1 is Ok,
    ensures
        cli.command matches Commands::Raw { command } ==> exists|w: Trail|
            did_run_and_print(
                t,
                w,
                commands::executed(t, cli).0,
                text::joined(text::views(command@), " "@),
            ),
{
    if let Commands::Raw { command } = cli.command {
        let reach = Reach::Anything;
        let end = commands::executed(t, cli).0;
        let words = text::views(command@);
        let tcl = text::joined(words, " "@);
        reveal(commands::executed);
        reveal(commands::raw);
        let warning = Request::Warn("warning: raw bypasses all jog safety checks"@);
        let (s, _) = walk::ask_act(t, warning);
        let body = |v: Trail, entry: Entry| commands::raw_done(v, text::joined(words, " "@));
        assert forall|u: Trail, entry: Entry| u.at >= 0 implies promises::settles(
            u,
            #[trigger] body(u, entry),
            reach,
        ) by {
            reveal(commands::raw_done);
            promises::lemma_run_of(u, tcl, reach);
        }
        outcomes::lemma_session_succeeded(s, cli.options, false, body);
        let (u, entry) = session::connected(s, cli.options, false);
        reveal(commands::raw_done);
        promises::lemma_run_of(u, tcl, reach);
        outcomes::lemma_run_has_run(u, tcl);
        let (x, output) = session::run_of(u, tcl);
        let (y, _) = body(u, entry->Ok_0);
        assert(walk::leads_to(x, y));
        outcomes::lemma_has_run_inside(u, u, x, end, tcl);
        if output->Ok_0.len() > 0 {
            let print = Request::Print(output->Ok_0);
            outcomes::lemma_act_asked(x, print);
            outcomes::lemma_asked_inside(x, x, y, end, print);
        }
        assert(did_run_and_print(t, u, end, tcl));
    }
}

/// A raw command sends nothing but the words of the user, and what only watches.
pub proof fn law_raw_sends_nothing_else(cli: Cli, t: Trail)
    requires
        t.at >= 0,
    ensures
        cli.command matches Commands::Raw { command } ==> outcomes::sends_only(
            cli,
            t,
            |tcl: Seq<char>| tcl == text::joined(text::views(command@), " "@),
        ),
{
    if let Commands::Raw { command } = cli.command {
        let words = text::views(command@);
        let allowed = |tcl: Seq<char>| tcl == text::joined(text::views(command@), " "@);
        reveal(commands::executed);
        promises::lemma_raw(t, cli.options, words, Reach::Allow(allowed));
        outcomes::lemma_sends_only(cli, t, allowed);
    }
}

/// Whether the GPNVM bits were read between two points of a walk.
pub open spec fn did_read_bits(t: Trail, u: Trail, bits: Gpnvm) -> bool {
    exists|word: u32|
        #[trigger] readings::did_read_gpnvm(t, u, word) && target::are_bits_of(bits, word)
}

/// Whether the chip and the link were shown between two points of a walk as they were found: the
/// chip, its GPNVM bits, and the state in which the session has begun.
pub open spec fn did_show_info(
    t: Trail,
    u: Trail,
    options: OpenOcdOptions,
    chip: ChipInfo,
    bits: Gpnvm,
) -> bool {
    &&& outcomes::did_find_chip(t, u, chip)
    &&& session::connected(t, options, true).1 matches Ok(entry)
    &&& exists|w: Trail, x: Trail|
        #[trigger] walk::leads_to(t, w) && did_read_bits(w, x, bits) && #[trigger] walk::leads_to(x, u)
    &&& outcomes::did_ask(
        t,
        u,
        Request::Print(commands::info_text(chip, bits, entry.state, options)),
    )
}

/// What is shown of the chip is what was read from it.
pub proof fn law_info_is_what_was_read(cli: Cli, t: Trail)
    requires
        t.at >= 0,
        cli.command is Info,
        commands::executed(t, cli).1 is Ok,
    ensures
        exists|chip: ChipInfo, bits: Gpnvm|
            did_show_info(t, commands::executed(t, cli).0, cli.options, chip, bits),
{
    let reach = Reach::Anything;
    let end = commands::executed(t, cli).0;
    reveal(commands::executed);
    reveal(commands::info);
    let body = |u: Trail, entry: Entry| commands::info_told(u, entry, cli.options);
    assert forall|u: Trail, entry: Entry| u.at >= 0 implies promises::settles(
        u,
        #[trigger] body(u, entry),
        reach,
    ) by {
        reveal(commands::info_told);
        promises::lemma_chip_read(u, reach);
        if let (v, Ok(chip)) = chip::chip_read(u) {
            promises::lemma_gpnvm_read(v, reach);
            if let (x, Ok(bits)) = chip::gpnvm_read(v) {
                let step = walk::ask_act(
                    x,
                    Request::Print(commands::info_text(chip, bits, entry.state, cli.options)),
                );
                promises::lemma_then_restored(u, step, entry, reach);
            }
        }
    }
    outcomes::lemma_session_succeeded(t, cli.options, true, body);
    let (u, entry) = session::connected(t, cli.options, true);
    let entry = entry->Ok_0;
    reveal(commands::info_told);
    promises::lemma_chip_read(u, reach);
    let (v, chip) = chip::chip_read(u);
    let chip = chip->Ok_0;
    promises::lemma_gpnvm_read(v, reach);
    readings::law_gpnvm_bits_are_those_of_the_controller(v);
    let (x, bits) = chip::gpnvm_read(v);
    let bits = bits->Ok_0;
    assert(did_read_bits(v, x, bits));
    let print = Request::Print(commands::info_text(chip, bits, entry.state, cli.options));
    outcomes::lemma_act_asked(x, print);
    let (y, _) = walk::ask_act(x, print);
    promises::lemma_restored_link(y, entry.resume, reach);
    outcomes::lemma_asked_inside(t, x, y, end, print);
    assert(outcomes::did_find_chip(t, end, chip)) by {
        assert(walk::leads_to(chip::chip_read(u).0, end));
    }
    assert(walk::leads_to(t, v));
    assert(walk::leads_to(x, end));
    assert(did_show_info(t, end, cli.options, chip, bits));
}

/// Whether the GPNVM bits were shown between two points of a walk as they were read.
pub open spec fn did_show_bits(t: Trail, w: Trail, x: Trail, u: Trail, bits: Gpnvm) -> bool {
    &&& walk::leads_to(t, w)
    &&& did_read_bits(w, x, bits)
    &&& outcomes::did_ask(x, u, Request::Print(target::gpnvm_text(bits)))
}

/// The GPNVM bits that are shown are those that were read.
pub proof fn law_shown_bits_were_read(cli: Cli, t: Trail)
    requires
        t.at >= 0,
        cli.command == Commands::Gpnvm(GpnvmCommand::Show),
        commands::executed(t, cli).1 is Ok,
    ensures
        exists|w: Trail, x: Trail, bits: Gpnvm|
            did_show_bits(t, w, x, commands::executed(t, cli).0, bits),
{
    let reach = Reach::Anything;
    let end = commands::executed(t, cli).0;
    reveal(commands::executed);
    reveal(commands::gpnvm);
    let body = |u: Trail, entry: Entry| commands::gpnvm_told(u, entry);
    assert forall|u: Trail, entry: Entry| u.at >= 0 implies promises::settles(
        u,
        #[trigger] body(u, entry),
        reach,
    ) by {
        reveal(commands::gpnvm_told);
        promises::lemma_identity_read(u, reach);
        if let (v, Ok(())) = chip::chip_accepted(u) {
            promises::lemma_gpnvm_read(v, reach);
            if let (x, Ok(bits)) = chip::gpnvm_read(v) {
                let step = walk::ask_act(x, Request::Print(target::gpnvm_text(bits)));
                promises::lemma_then_restored(u, step, entry, reach);
            }
        }
    }
    outcomes::lemma_session_succeeded(t, cli.options, true, body);
    let (u, entry) = session::connected(t, cli.options, true);
    let entry = entry->Ok_0;
    reveal(commands::gpnvm_told);
    promises::lemma_identity_read(u, reach);
    let (v, _) = chip::chip_accepted(u);
    promises::lemma_gpnvm_read(v, reach);
    readings::law_gpnvm_bits_are_those_of_the_controller(v);
    let (x, bits) = chip::gpnvm_read(v);
    let bits = bits->Ok_0;
    assert(did_read_bits(v, x, bits));
    let print = Request::Print(target::gpnvm_text(bits));
    outcomes::lemma_act_asked(x, print);
    let (y, _) = walk::ask_act(x, print);
    promises::lemma_restored_link(y, entry.resume, reach);
    outcomes::lemma_asked_inside(x, x, y, end, print);
    assert(did_show_bits(t, v, x, end, bits));
}

/// Showing the chip and serving debuggers only watch the target, but for what resumes it.
pub proof fn law_info_and_gdb_only_watch(cli: Cli, t: Trail)
    requires
        t.at >= 0,
        cli.command is Info || cli.command is Gdb,
    ensures
        outcomes::sends_only(cli, t, |tcl: Seq<char>| tcl == "resume"@),
{
    let allowed = |tcl: Seq<char>| tcl == "resume"@;
    let reach = Reach::Allow(allowed);
    assert(allowed("resume"@));
    reveal(commands::executed);
    match cli.command {
        Commands::Info => promises::lemma_info(t, cli.options, reach),
        Commands::Gdb { port } => promises::lemma_gdb(t, cli.options, port, reach),
        _ => {},
    }
    outcomes::lemma_sends_only(cli, t, allowed);
}

/// Whether a step only tells the user something.
pub open spec fn only_tells(t: Trail, step: (Trail, Result<(), Halt>)) -> bool {
    exists|notice: Seq<char>| step == #[trigger] walk::ask_act(t, Request::Print(notice))
}

/// A boot source that is selected already is not written again: the bits are read, the user is told,
/// and that is all.
pub proof fn law_selected_source_is_not_written_again(t: Trail, mode: BootMode)
    ensures
        chip::gpnvm_read(t) matches (u, Ok(bits)) ==> bits.bit(1) == outcomes::source_bit(mode)
            ==> only_tells(u, commands::boot_selected(t, mode)),
{
    reveal(commands::boot_selected);
    let notice = "ok: already booting from "@ + (match mode {
        BootMode::Flash => "Flash"@,
        BootMode::Rom => "ROM (SAM-BA)"@,
    });
    if let (u, Ok(bits)) = chip::gpnvm_read(t) {
        if bits.bit(1) == outcomes::source_bit(mode) {
            assert(commands::boot_selected(t, mode) == walk::ask_act(u, Request::Print(notice)));
        }
    }
}

} // verus!
