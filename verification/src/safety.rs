//! What holds before anything is changed on the target.
use vstd::prelude::*;

use crate::chip;
use crate::commands;
use crate::commands::{Cli, Commands, GpnvmCommand};
use crate::config;
use crate::flash;
use crate::openocd::OpenOcdOptions;
use crate::outcomes;
use crate::promises;
use crate::promises::Reach;
use crate::session;
use crate::session::Entry;
use crate::text;
use crate::walk;
use crate::walk::{Halt, Request, Trail};

verus! {

/// Whether the identity of the target was read between two points of a walk, and is that of the
/// supported chip.
pub open spec fn did_identify(t: Trail, u: Trail) -> bool {
    exists|words: Seq<u32>| #[trigger]
        outcomes::did_read(t, u, 0x400e_0740, 32, 2, words) && words[1] == 0x0012_0209
}

/// A chip that is accepted was identified.
proof fn lemma_accepted(t: Trail, a: Trail, u: Trail)
    requires
        a.at >= 0,
        walk::leads_to(t, a),
        chip::chip_accepted(a).1 is Ok,
        walk::leads_to(chip::chip_accepted(a).0, u),
    ensures
        did_identify(t, u),
{
    reveal(chip::chip_accepted);
    reveal(chip::identity_read);
    promises::lemma_memory_of(a, chip::CHIPID_CIDR, 32, 2, Reach::Anything);
    let (b, words) = session::memory_of(a, chip::CHIPID_CIDR, 32, 2);
    let words = words->Ok_0;
    outcomes::lemma_memory_was_read(a, u, chip::CHIPID_CIDR, 32, 2);
    assert(words.len() == 2) by {
        reveal(session::memory_of);
    }
    outcomes::lemma_read_inside(t, a, u, 0x400e_0740, 32, 2, words);
}

/// Whether a command in a session goes no further than the identity of the target where that is not
/// accepted.
spec fn identifies_first(body: spec_fn(Trail, Entry) -> (Trail, Result<(), Halt>)) -> bool {
    forall|u: Trail, entry: Entry|
        u.at >= 0 ==> {
            let (v, accepted) = chip::chip_accepted(u);
            &&& promises::settles(u, #[trigger] body(u, entry), Reach::Anything)
            &&& accepted is Err ==> body(u, entry) == (v, Err::<(), Halt>(accepted->Err_0))
            &&& accepted is Ok ==> walk::leads_to(v, body(u, entry).0)
        }
}

/// Whether what was sent up to a point of a walk, and is to be sent next, only looks at the target, as
/// long as it was not identified.
pub open spec fn is_careful(t: Trail, step: (Trail, Result<(), Halt>)) -> bool {
    &&& step.1 is Ok ==> did_identify(t, step.0)
    &&& step.1 matches Err(Halt::Ask(Request::Send(bytes))) ==> outcomes::looks(bytes)
        || did_identify(t, step.0)
}

/// A session that identifies the target first is careful.
proof fn lemma_session_is_careful(
    t: Trail,
    options: OpenOcdOptions,
    restore: bool,
    body: spec_fn(Trail, Entry) -> (Trail, Result<(), Halt>),
)
    requires
        t.at >= 0,
        identifies_first(body),
    ensures
        is_careful(t, commands::in_session(t, options, restore, body)),
        promises::settles(t, commands::in_session(t, options, restore, body), Reach::Anything),
{
    let step = commands::in_session(t, options, restore, body);
    let looking = |u: Trail, entry: Entry| chip::chip_accepted(u);
    assert forall|u: Trail, entry: Entry| u.at >= 0 implies promises::settles(
        u,
        #[trigger] looking(u, entry),
        Reach::Look,
    ) by {
        promises::lemma_identity_read(u, Reach::Look);
    }
    promises::lemma_in_session(t, options, restore, looking, Reach::Look);
    promises::lemma_in_session(t, options, restore, body, Reach::Anything);
    promises::lemma_connected(t, options, restore, Reach::Anything);
    let (u, entry) = session::connected(t, options, restore);
    if entry is Ok {
        let entry = entry->Ok_0;
        let (v, accepted) = chip::chip_accepted(u);
        assert(promises::settles(u, body(u, entry), Reach::Anything));
        if accepted is Ok {
            let inner = body(u, entry);
            promises::lemma_dropped(
                inner.0,
                entry.resume && inner.1 is Err,
                Reach::Anything,
            );
            assert(walk::leads_to(inner.0, step.0));
            lemma_accepted(t, u, step.0);
        } else {
            assert(looking(u, entry) == chip::chip_accepted(u));
            assert(body(u, entry) == (v, Err::<(), Halt>(accepted->Err_0)));
            assert(step == commands::in_session(t, options, restore, looking));
        }
    } else {
        assert(step == commands::in_session(t, options, restore, looking));
    }
}

/// What is careful in a part of a walk is careful in the whole.
proof fn lemma_careful_inside(t: Trail, a: Trail, step: (Trail, Result<(), Halt>))
    requires
        walk::leads_to(t, a),
        is_careful(a, step),
    ensures
        is_careful(t, step),
{
    if did_identify(a, step.0) {
        let words = choose|words: Seq<u32>| #[trigger]
            outcomes::did_read(a, step.0, 0x400e_0740, 32, 2, words) && words[1] == 0x0012_0209;
        outcomes::lemma_read_inside(t, a, step.0, 0x400e_0740, 32, 2, words);
    }
}

/// Reading the chip goes no further than its identity where that is not accepted.
proof fn lemma_chip_read_first(t: Trail)
    requires
        t.at >= 0,
    ensures
        ({
            let (v, accepted) = chip::chip_accepted(t);
            &&& accepted is Err ==> chip::chip_read(t) == (
                v,
                Err::<crate::target::ChipInfo, Halt>(accepted->Err_0),
            )
            &&& accepted is Ok ==> walk::leads_to(v, chip::chip_read(t).0)
        }),
{
    let reach = Reach::Anything;
    reveal(chip::chip_accepted);
    reveal(chip::chip_read);
    promises::lemma_identity_read(t, reach);
    if let (u, Ok(_)) = chip::chip_accepted(t) {
        promises::lemma_commanded(u, chip::GET_DESCRIPTOR, reach);
        if let (v, Ok(())) = chip::commanded(u, chip::GET_DESCRIPTOR) {
            promises::lemma_descriptor_read(v, reach);
        }
    }
}

/// Whether a command works on the target. A raw command is handed to OpenOCD as it is.
pub open spec fn works_on_target(command: Commands) -> bool {
    match command {
        Commands::ConfigDirectory => false,
        Commands::ConfigInit => false,
        Commands::Images => false,
        Commands::Raw { .. } => false,
        _ => true,
    }
}

/// Running one thing on the target identifies it first.
proof fn lemma_run_and_tell_is_careful(u: Trail, tcl: Seq<char>, notice: Seq<char>)
    requires
        u.at >= 0,
    ensures
        ({
            let (v, accepted) = chip::chip_accepted(u);
            let step = commands::run_and_tell(u, tcl, notice);
            &&& promises::settles(u, step, Reach::Anything)
            &&& accepted is Err ==> step == (v, Err::<(), Halt>(accepted->Err_0))
            &&& accepted is Ok ==> walk::leads_to(v, step.0)
        }),
{
    let reach = Reach::Anything;
    promises::lemma_run_and_tell(u, tcl, notice, reach);
    promises::lemma_identity_read(u, reach);
    reveal(commands::run_and_tell);
    if let (v, Ok(())) = chip::chip_accepted(u) {
        promises::lemma_run_of(v, tcl, reach);
    }
}

/// Resetting identifies the target first.
proof fn lemma_reset_is_careful(t: Trail, options: OpenOcdOptions, halt: bool)
    requires
        t.at >= 0,
    ensures
        is_careful(t, commands::reset(t, options, halt)),
{
    reveal(commands::reset);
    let body = |u: Trail, entry: Entry|
        if halt {
            commands::run_and_tell(u, "reset halt"@, "ok: reset (halted)"@)
        } else {
            commands::run_and_tell(u, "reset run"@, "ok: reset (running)"@)
        };
    assert forall|u: Trail, entry: Entry| u.at >= 0 implies {
        let (v, accepted) = chip::chip_accepted(u);
        &&& promises::settles(u, #[trigger] body(u, entry), Reach::Anything)
        &&& accepted is Err ==> body(u, entry) == (v, Err::<(), Halt>(accepted->Err_0))
        &&& accepted is Ok ==> walk::leads_to(v, body(u, entry).0)
    } by {
        lemma_run_and_tell_is_careful(u, "reset halt"@, "ok: reset (halted)"@);
        lemma_run_and_tell_is_careful(u, "reset run"@, "ok: reset (running)"@);
    }
    lemma_session_is_careful(t, options, false, body);
}

/// Halting and resuming identify the target first.
proof fn lemma_halt_and_resume_are_careful(t: Trail, options: OpenOcdOptions)
    requires
        t.at >= 0,
    ensures
        is_careful(t, commands::halt(t, options)),
        is_careful(t, commands::resume(t, options)),
{
    let reach = Reach::Anything;
    reveal(commands::halt);
    reveal(commands::resume);
    let halting = |u: Trail, entry: Entry| commands::halt_told(u);
    assert forall|u: Trail, entry: Entry| u.at >= 0 implies {
        let (v, accepted) = chip::chip_accepted(u);
        &&& promises::settles(u, #[trigger] halting(u, entry), Reach::Anything)
        &&& accepted is Err ==> halting(u, entry) == (v, Err::<(), Halt>(accepted->Err_0))
        &&& accepted is Ok ==> walk::leads_to(v, halting(u, entry).0)
    } by {
        reveal(commands::halt_told);
        reveal(session::value_of);
        promises::lemma_identity_read(u, reach);
        if let (v, Ok(())) = chip::chip_accepted(u) {
            promises::lemma_state_link(v, reach);
        }
    }
    lemma_session_is_careful(t, options, false, halting);
    let resuming = |u: Trail, entry: Entry| commands::run_and_tell(u, "resume"@, "ok: running"@);
    assert forall|u: Trail, entry: Entry| u.at >= 0 implies {
        let (v, accepted) = chip::chip_accepted(u);
        &&& promises::settles(u, #[trigger] resuming(u, entry), Reach::Anything)
        &&& accepted is Err ==> resuming(u, entry) == (v, Err::<(), Halt>(accepted->Err_0))
        &&& accepted is Ok ==> walk::leads_to(v, resuming(u, entry).0)
    } by {
        lemma_run_and_tell_is_careful(u, "resume"@, "ok: running"@);
    }
    lemma_session_is_careful(t, options, false, resuming);
}

/// Selecting a boot source identifies the target first.
proof fn lemma_boot_is_careful(
    t: Trail,
    options: OpenOcdOptions,
    mode: commands::BootMode,
    reset: bool,
)
    requires
        t.at >= 0,
    ensures
        is_careful(t, commands::boot(t, options, mode, reset)),
{
    let reach = Reach::Anything;
    reveal(commands::boot);
    let body = |u: Trail, entry: Entry| commands::boot_done(u, entry, mode, reset);
    assert forall|u: Trail, entry: Entry| u.at >= 0 implies {
        let (v, accepted) = chip::chip_accepted(u);
        &&& promises::settles(u, #[trigger] body(u, entry), Reach::Anything)
        &&& accepted is Err ==> body(u, entry) == (v, Err::<(), Halt>(accepted->Err_0))
        &&& accepted is Ok ==> walk::leads_to(v, body(u, entry).0)
    } by {
        reveal(commands::boot_done);
        promises::lemma_identity_read(u, reach);
        if let (v, Ok(())) = chip::chip_accepted(u) {
            outcomes::lemma_boot_selected(v, mode);
            let step = commands::boot_selected(v, mode);
            promises::lemma_then_restored(u, step, entry, reach);
            promises::lemma_then_restored(v, step, entry, reach);
            promises::lemma_reset_to_run(step.0, "ok: device reset"@, reach);
        }
    }
    lemma_session_is_careful(t, options, !reset, body);
}

/// The GPNVM commands identify the target first.
proof fn lemma_gpnvm_is_careful(t: Trail, options: OpenOcdOptions, command: GpnvmCommand)
    requires
        t.at >= 0,
    ensures
        is_careful(t, commands::gpnvm(t, options, command)),
{
    let reach = Reach::Anything;
    reveal(commands::gpnvm);
    reveal(commands::gpnvm_change);
    let showing = |u: Trail, entry: Entry| commands::gpnvm_told(u, entry);
    assert forall|u: Trail, entry: Entry| u.at >= 0 implies {
        let (v, accepted) = chip::chip_accepted(u);
        &&& promises::settles(u, #[trigger] showing(u, entry), Reach::Anything)
        &&& accepted is Err ==> showing(u, entry) == (v, Err::<(), Halt>(accepted->Err_0))
        &&& accepted is Ok ==> walk::leads_to(v, showing(u, entry).0)
    } by {
        reveal(commands::gpnvm_told);
        promises::lemma_identity_read(u, reach);
        if let (v, Ok(())) = chip::chip_accepted(u) {
            promises::lemma_gpnvm_read(v, reach);
            if let (x, Ok(bits)) = chip::gpnvm_read(v) {
                let step = walk::ask_act(x, Request::Print(crate::target::gpnvm_text(bits)));
                promises::lemma_then_restored(u, step, entry, reach);
                promises::lemma_then_restored(v, step, entry, reach);
            }
        }
    }
    lemma_session_is_careful(t, options, true, showing);
    let (bit, value) = match command {
        GpnvmCommand::SetBit { bit, .. } => (bit, 1u8),
        GpnvmCommand::ClearBit { bit } => (bit, 0u8),
        GpnvmCommand::Show => (0u8, 0u8),
    };
    let changing = |u: Trail, entry: Entry| commands::gpnvm_written(u, bit, value);
    assert forall|u: Trail, entry: Entry| u.at >= 0 implies {
        let (v, accepted) = chip::chip_accepted(u);
        &&& promises::settles(u, #[trigger] changing(u, entry), Reach::Anything)
        &&& accepted is Err ==> changing(u, entry) == (v, Err::<(), Halt>(accepted->Err_0))
        &&& accepted is Ok ==> walk::leads_to(v, changing(u, entry).0)
    } by {
        reveal(commands::gpnvm_written);
        promises::lemma_identity_read(u, reach);
        if let (v, Ok(())) = chip::chip_accepted(u) {
            promises::lemma_gpnvm_read(v, reach);
            if let (x, Ok(_)) = chip::gpnvm_read(v) {
                promises::lemma_gpnvm_changed(x, bit, value, reach);
            }
        }
    }
    lemma_session_is_careful(t, options, false, changing);
}

/// Showing the chip identifies it first.
proof fn lemma_info_is_careful(t: Trail, options: OpenOcdOptions)
    requires
        t.at >= 0,
    ensures
        is_careful(t, commands::info(t, options)),
{
    let reach = Reach::Anything;
    reveal(commands::info);
    let body = |u: Trail, entry: Entry| commands::info_told(u, entry, options);
    assert forall|u: Trail, entry: Entry| u.at >= 0 implies {
        let (v, accepted) = chip::chip_accepted(u);
        &&& promises::settles(u, #[trigger] body(u, entry), Reach::Anything)
        &&& accepted is Err ==> body(u, entry) == (v, Err::<(), Halt>(accepted->Err_0))
        &&& accepted is Ok ==> walk::leads_to(v, body(u, entry).0)
    } by {
        reveal(commands::info_told);
        lemma_chip_read_first(u);
        promises::lemma_chip_read(u, reach);
        if let (x, Ok(chip)) = chip::chip_read(u) {
            promises::lemma_gpnvm_read(x, reach);
            if let (y, Ok(bits)) = chip::gpnvm_read(x) {
                let step = walk::ask_act(
                    y,
                    Request::Print(commands::info_text(chip, bits, entry.state, options)),
                );
                promises::lemma_then_restored(u, step, entry, reach);
                promises::lemma_then_restored(x, step, entry, reach);
            }
        }
    }
    lemma_session_is_careful(t, options, true, body);
}

/// Erasing identifies the target first.
proof fn lemma_erase_is_careful(
    t: Trail,
    options: OpenOcdOptions,
    start: Option<Seq<char>>,
    end: Option<Seq<char>>,
    yes: bool,
)
    requires
        t.at >= 0,
    ensures
        is_careful(t, commands::erase(t, options, start, end, yes)),
{
    let reach = Reach::Anything;
    reveal(commands::erase);
    if let (Ok(a), Ok(b)) = (commands::given_address(start), commands::given_address(end)) {
        if let Ok(question) = commands::erase_question(a, b) {
            promises::lemma_confirmed(t, question, Reach::Look);
            let u = if yes {
                t
            } else {
                commands::confirmed(t, question).0
            };
            let body = |v: Trail, entry: Entry| commands::erase_done(v, a, b);
            assert forall|u: Trail, entry: Entry| u.at >= 0 implies {
                let (v, accepted) = chip::chip_accepted(u);
                &&& promises::settles(u, #[trigger] body(u, entry), Reach::Anything)
                &&& accepted is Err ==> body(u, entry) == (v, Err::<(), Halt>(accepted->Err_0))
                &&& accepted is Ok ==> walk::leads_to(v, body(u, entry).0)
            } by {
                outcomes::lemma_erase_done_settles(a, b);
                reveal(commands::erase_done);
                lemma_chip_read_first(u);
                promises::lemma_chip_read(u, reach);
                if let (x, Ok(chip)) = chip::chip_read(u) {
                    if let Ok(erasure) = commands::erasure(a, b, chip) {
                        let notice = Request::Print("Erasing "@ + erasure.what + "..."@);
                        if let (y, Ok(())) = walk::ask_act(x, notice) {
                            promises::lemma_flash_run(y, erasure.command, reach);
                        }
                    }
                }
            }
            lemma_session_is_careful(u, options, false, body);
            lemma_careful_inside(t, u, commands::in_session(u, options, false, body));
        }
    }
}

/// Reading identifies the target first.
proof fn lemma_read_is_careful(
    t: Trail,
    options: OpenOcdOptions,
    address: Seq<char>,
    length: Seq<char>,
    out: Option<Seq<char>>,
)
    requires
        t.at >= 0,
    ensures
        is_careful(t, commands::read(t, options, address, length, out)),
{
    let reach = Reach::Anything;
    reveal(commands::read);
    if let Ok((first, count)) = commands::read_range(address, length) {
        outcomes::lemma_output_found(t, out);
        reveal(commands::output_found);
        if let (s, Ok(path)) = commands::output_found(t, out) {
            let body = |v: Trail, entry: Entry| commands::read_done(v, entry, first, count, path);
            assert forall|u: Trail, entry: Entry| u.at >= 0 implies {
                let (v, accepted) = chip::chip_accepted(u);
                &&& promises::settles(u, #[trigger] body(u, entry), Reach::Anything)
                &&& accepted is Err ==> body(u, entry) == (v, Err::<(), Halt>(accepted->Err_0))
                &&& accepted is Ok ==> walk::leads_to(v, body(u, entry).0)
            } by {
                reveal(commands::read_done);
                promises::lemma_identity_read(u, reach);
                if let (v, Ok(())) = chip::chip_accepted(u) {
                    outcomes::lemma_memory_taken(v, first, count, path);
                    let step = outcomes::memory_taken(v, first, count, path);
                    promises::lemma_then_restored(u, step, entry, reach);
                    promises::lemma_then_restored(v, step, entry, reach);
                }
            }
            lemma_session_is_careful(s, options, true, body);
            lemma_careful_inside(t, s, commands::in_session(s, options, true, body));
        }
    }
}

/// Writing an image identifies the target first.
proof fn lemma_flash_is_careful(
    t: Trail,
    options: OpenOcdOptions,
    explicit: Option<Seq<char>>,
    target: Seq<char>,
    addr: Option<Seq<char>>,
    verify: bool,
    run_after: bool,
)
    requires
        t.at >= 0,
    ensures
        is_careful(
            t,
            commands::flash_image(t, options, explicit, target, addr, verify, run_after),
        ),
{
    let reach = Reach::Anything;
    reveal(commands::flash_image);
    promises::lemma_loaded(t, explicit, Reach::Look);
    if let (u, Ok(catalog)) = config::loaded(t, explicit) {
        if let Ok(address) = commands::given_address(addr) {
            promises::lemma_prepared(u, target, address, catalog.images, Reach::Look);
            if let (s, Ok(parts)) = flash::prepared(u, target, address, catalog.images) {
                let body = |x: Trail, entry: Entry|
                    commands::flash_done(x, parts, verify, run_after);
                assert forall|u: Trail, entry: Entry| u.at >= 0 implies {
                    let (v, accepted) = chip::chip_accepted(u);
                    &&& promises::settles(u, #[trigger] body(u, entry), Reach::Anything)
                    &&& accepted is Err ==> body(u, entry) == (v, Err::<(), Halt>(accepted->Err_0))
                    &&& accepted is Ok ==> walk::leads_to(v, body(u, entry).0)
                } by {
                    promises::lemma_flash_done(u, parts, verify, run_after, reach);
                    reveal(commands::flash_done);
                    lemma_chip_read_first(u);
                    promises::lemma_chip_read(u, reach);
                    if let (x, Ok(chip)) = chip::chip_read(u) {
                        let flash_end = commands::end_of_flash(chip);
                        promises::lemma_planned(x, parts, flash_end, reach);
                        if let (y, Ok(plan)) = flash::planned(x, parts, flash_end) {
                            promises::lemma_plan_done(y, plan, parts, verify, reach);
                            let (z, _) = commands::plan_done(y, plan, parts, verify);
                            promises::lemma_reset_to_run(z, "ok: reset, running"@, reach);
                        }
                    }
                }
                lemma_session_is_careful(s, options, false, body);
                lemma_careful_inside(t, s, commands::in_session(s, options, false, body));
            }
        }
    }
}

/// Serving debuggers identifies the target first.
proof fn lemma_gdb_is_careful(t: Trail, options: OpenOcdOptions, port: u16)
    requires
        t.at >= 0,
    ensures
        is_careful(t, commands::gdb(t, options, port)),
{
    let reach = Reach::Anything;
    reveal(commands::gdb);
    let body = |u: Trail, entry: Entry| commands::chip_found(u, entry);
    assert forall|u: Trail, entry: Entry| u.at >= 0 implies {
        let (v, accepted) = chip::chip_accepted(u);
        &&& promises::settles(u, #[trigger] body(u, entry), Reach::Anything)
        &&& accepted is Err ==> body(u, entry) == (v, Err::<(), Halt>(accepted->Err_0))
        &&& accepted is Ok ==> walk::leads_to(v, body(u, entry).0)
    } by {
        reveal(commands::chip_found);
        promises::lemma_identity_read(u, reach);
        let (v, _) = chip::chip_accepted(u);
        promises::lemma_then_restored(u, chip::chip_accepted(u), entry, reach);
        promises::lemma_restored_link(v, entry.resume, reach);
    }
    lemma_session_is_careful(t, options, true, body);
    let step = commands::in_session(t, options, true, body);
    if step.1 is Ok {
        let u = step.0;
        reveal(commands::served);
        let words = choose|words: Seq<u32>| #[trigger]
            outcomes::did_read(t, u, 0x400e_0740, 32, 2, words) && words[1] == 0x0012_0209;
        let end = commands::gdb(t, options, port).0;
        assert(walk::leads_to(u, end));
        outcomes::lemma_read_up_to(t, u, end, 0x400e_0740, 32, 2, words);
    }
}

/// Nothing is changed on another chip: what a command that works on the target sends only looks at
/// it, until the identity of the supported chip was read. Such a command succeeds only on this chip.
pub proof fn law_other_chips_are_left_alone(cli: Cli, t: Trail)
    requires
        t.at >= 0,
        works_on_target(cli.command),
    ensures
        is_careful(t, commands::executed(t, cli)),
{
    reveal(commands::executed);
    match cli.command {
        Commands::Info => lemma_info_is_careful(t, cli.options),
        Commands::Flash { target, addr, verify, run_after } => lemma_flash_is_careful(
            t,
            cli.options,
            text::maybe(cli.config),
            target@,
            text::maybe(addr),
            verify,
            run_after,
        ),
        Commands::Boot { mode, reset } => lemma_boot_is_careful(t, cli.options, mode, reset),
        Commands::Gpnvm(command) => lemma_gpnvm_is_careful(t, cli.options, command),
        Commands::Erase { start, end, yes } => lemma_erase_is_careful(
            t,
            cli.options,
            text::maybe(start),
            text::maybe(end),
            yes,
        ),
        Commands::Read { address, length, out } => lemma_read_is_careful(
            t,
            cli.options,
            address@,
            length@,
            text::maybe(out),
        ),
        Commands::Reset { halt } => lemma_reset_is_careful(t, cli.options, halt),
        Commands::Halt => lemma_halt_and_resume_are_careful(t, cli.options),
        Commands::Resume => lemma_halt_and_resume_are_careful(t, cli.options),
        Commands::Gdb { port } => lemma_gdb_is_careful(t, cli.options, port),
        _ => {},
    }
}

} // verus!
