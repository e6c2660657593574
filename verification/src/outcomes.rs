//! What a command that succeeds has done.
use crate::chip;
use crate::commands;
use crate::commands::{BootMode, Cli, Commands, GpnvmCommand};
use crate::config;
use crate::dump;
use crate::error::Failure;
use crate::flash;
use crate::flash::Plan;
use crate::image;
use crate::image::Part;
use crate::number;
use crate::openocd::OpenOcdOptions;
use crate::promises;
use crate::promises::Reach;
use crate::readings;
use crate::session;
use crate::session::Entry;
use crate::target::ChipInfo;
use crate::tcl;
use crate::text;
use crate::walk;
use crate::walk::{Halt, Reply, Request, Trail};
use crate::wording;
use std::ops::Range;
use vstd::prelude::*;

verus! {

/// Whether a command was sent, and did not fail, between two points of a walk.
pub open spec fn has_run(t: Trail, u: Trail, tcl: Seq<char>) -> bool {
    exists|w: Trail| ran_at(t, u, tcl, w)
}

/// Whether a command was sent at `w`, and did not fail, between two points of a walk.
pub open spec fn ran_at(t: Trail, u: Trail, tcl: Seq<char>, w: Trail) -> bool {
    &&& walk::leads_to(t, w)
    &&& walk::leads_to(session::run_of(w, tcl).0, u)
    &&& session::run_of(w, tcl).1 is Ok
    &&& w.asked.len() < u.asked.len()
    &&& u.asked[w.asked.len() as int] == Request::Send(tcl::frame(tcl::wrapper(tcl)))
}

/// What has run in a part of a walk has run in the whole.
pub(crate) proof fn lemma_has_run_inside(t: Trail, a: Trail, b: Trail, u: Trail, tcl: Seq<char>)
    requires
        has_run(a, b, tcl),
        walk::leads_to(t, a),
        walk::leads_to(b, u),
    ensures
        has_run(t, u, tcl),
{
    let w = choose|w: Trail| ran_at(a, b, tcl, w);
    assert(u.asked[w.asked.len() as int] == b.asked[w.asked.len() as int]);
    assert(ran_at(t, u, tcl, w));
}

/// A command that succeeds was sent.
pub(crate) proof fn lemma_run_has_run(t: Trail, tcl: Seq<char>)
    requires
        t.at >= 0,
        session::run_of(t, tcl).1 is Ok,
    ensures
        has_run(t, session::run_of(t, tcl).0, tcl),
{
    let u = session::run_of(t, tcl).0;
    reveal(session::run_of);
    reveal(session::run_link);
    reveal(session::exchange);
    let request = Request::Send(tcl::frame(tcl::wrapper(tcl)));
    let (v, _) = walk::ask_done(t, request);
    promises::lemma_received(v, Seq::empty(), Reach::Anything);
    assert(v.asked[t.asked.len() as int] == request);
    assert(u.asked[t.asked.len() as int] == request);
    assert(ran_at(t, u, tcl, t));
}

/// A command on flash that succeeds was sent.
pub(crate) proof fn lemma_flash_has_run(t: Trail, tcl: Seq<char>)
    requires
        t.at >= 0,
        flash::flash_run(t, tcl).1 is Ok,
    ensures
        has_run(t, flash::flash_run(t, tcl).0, tcl),
{
    reveal(flash::flash_run);
    lemma_run_has_run(t, tcl);
}

/// A part that is written has been written.
pub(crate) proof fn lemma_write_has_run(t: Trail, part: Part, erase: bool)
    requires
        t.at >= 0,
        flash::part_written(t, part, erase).1 is Ok,
    ensures
        has_run(t, flash::part_written(t, part, erase).0, part.write_command(erase)),
{
    let tcl = part.write_command(erase);
    let end = flash::part_written(t, part, erase).0;
    reveal(flash::part_written);
    let notice = Request::Print("Programming "@ + part.label() + "..."@);
    let (u, _) = walk::ask_act(t, notice);
    promises::lemma_flash_run(u, tcl, Reach::Anything);
    lemma_flash_has_run(u, tcl);
    lemma_has_run_inside(t, u, flash::flash_run(u, tcl).0, end, tcl);
}

/// A part that is verified has been verified.
pub(crate) proof fn lemma_verify_has_run(t: Trail, part: Part)
    requires
        t.at >= 0,
        flash::part_verified(t, part).1 is Ok,
    ensures
        has_run(t, flash::part_verified(t, part).0, part.verify_command()),
{
    let tcl = part.verify_command();
    let end = flash::part_verified(t, part).0;
    reveal(flash::part_verified);
    let notice = Request::Print("Verifying "@ + part.file + "..."@);
    let (u, _) = walk::ask_act(t, notice);
    promises::lemma_flash_run(u, tcl, Reach::Anything);
    lemma_flash_has_run(u, tcl);
    lemma_has_run_inside(t, u, flash::flash_run(u, tcl).0, end, tcl);
}

/// Ranges that are erased have all been erased.
pub(crate) proof fn lemma_erases_have_run(t: Trail, ranges: Seq<Range<u32>>, n: nat, i: int)
    requires
        t.at >= 0,
        0 <= i < n <= ranges.len(),
        commands::ranges_erased(t, ranges, n).1 is Ok,
    ensures
        has_run(t, commands::ranges_erased(t, ranges, n).0, image::erase_command(ranges[i])),
    decreases n,
{
    let tcl = image::erase_command(ranges[i]);
    let end = commands::ranges_erased(t, ranges, n).0;
    let (u, _) = commands::ranges_erased(t, ranges, (n - 1) as nat);
    promises::lemma_ranges_erased(t, ranges, (n - 1) as nat, Reach::Anything);
    let range = ranges[n - 1];
    assert(promises::settles(u, commands::range_erased(u, range), Reach::Anything)) by {
        promises::lemma_ranges_erased(u, seq![range], 1, Reach::Anything);
        reveal_with_fuel(commands::ranges_erased, 2);
    }
    if i < n - 1 {
        lemma_erases_have_run(t, ranges, (n - 1) as nat, i);
        lemma_has_run_inside(t, t, u, end, tcl);
    } else {
        reveal(commands::range_erased);
        let notice = Request::Print(
            "Erasing "@ + text::hex8(range.start as nat) + "-"@ + text::hex8(
                (range.end - 1) as nat,
            ) + "..."@,
        );
        let (v, _) = walk::ask_act(u, notice);
        promises::lemma_flash_run(v, tcl, Reach::Anything);
        lemma_flash_has_run(v, tcl);
        lemma_has_run_inside(t, v, flash::flash_run(v, tcl).0, end, tcl);
    }
}

/// Parts that are written have all been written.
pub(crate) proof fn lemma_writes_have_run(t: Trail, parts: Seq<Part>, n: nat, i: int)
    requires
        t.at >= 0,
        0 <= i < n <= parts.len(),
        commands::parts_written(t, parts, n).1 is Ok,
    ensures
        has_run(t, commands::parts_written(t, parts, n).0, parts[i].write_command(false)),
    decreases n,
{
    let tcl = parts[i].write_command(false);
    let end = commands::parts_written(t, parts, n).0;
    let (u, _) = commands::parts_written(t, parts, (n - 1) as nat);
    promises::lemma_parts_written(t, parts, (n - 1) as nat, Reach::Anything);
    promises::lemma_part_written(u, parts[n - 1], false, Reach::Anything);
    if i < n - 1 {
        lemma_writes_have_run(t, parts, (n - 1) as nat, i);
        lemma_has_run_inside(t, t, u, end, tcl);
    } else {
        lemma_write_has_run(u, parts[i], false);
        lemma_has_run_inside(t, u, end, end, tcl);
    }
}

/// Parts that are verified have all been verified.
pub(crate) proof fn lemma_verifies_have_run(t: Trail, parts: Seq<Part>, n: nat, i: int)
    requires
        t.at >= 0,
        0 <= i < n <= parts.len(),
        commands::parts_verified(t, parts, n).1 is Ok,
    ensures
        has_run(t, commands::parts_verified(t, parts, n).0, parts[i].verify_command()),
    decreases n,
{
    let tcl = parts[i].verify_command();
    let end = commands::parts_verified(t, parts, n).0;
    let (u, _) = commands::parts_verified(t, parts, (n - 1) as nat);
    promises::lemma_parts_verified(t, parts, (n - 1) as nat, Reach::Anything);
    promises::lemma_part_verified(u, parts[n - 1], Reach::Anything);
    if i < n - 1 {
        lemma_verifies_have_run(t, parts, (n - 1) as nat, i);
        lemma_has_run_inside(t, t, u, end, tcl);
    } else {
        lemma_verify_has_run(u, parts[i]);
        lemma_has_run_inside(t, u, end, end, tcl);
    }
}

/// Whether the sectors of a range were erased between two points of a walk.
pub open spec fn did_erase(t: Trail, u: Trail, range: Range<u32>) -> bool {
    exists|tcl: Seq<char>|
        wording::erases(tcl, range.start as nat, (range.end - range.start) as nat)
            && #[trigger] has_run(t, u, tcl)
}

/// Whether a part was written between two points of a walk: the file with its bytes, at its address,
/// in its format.
pub open spec fn did_write(t: Trail, u: Trail, part: Part) -> bool {
    exists|tcl: Seq<char>|
        wording::writes(
            tcl,
            wording::file_of(part),
            part.addr as nat,
            wording::format_name(part.format),
        ) && #[trigger] has_run(t, u, tcl)
}

/// Whether a part was written between two points of a walk, and what it needs erased before that.
pub open spec fn did_erase_and_write(t: Trail, u: Trail, part: Part) -> bool {
    exists|tcl: Seq<char>|
        wording::erases_and_writes(
            tcl,
            wording::file_of(part),
            part.addr as nat,
            wording::format_name(part.format),
        ) && #[trigger] has_run(t, u, tcl)
}

/// Whether flash was compared with a part between two points of a walk.
pub open spec fn did_verify(t: Trail, u: Trail, part: Part) -> bool {
    exists|tcl: Seq<char>|
        wording::verifies(
            tcl,
            wording::file_of(part),
            part.addr as nat,
            wording::format_name(part.format),
        ) && #[trigger] has_run(t, u, tcl)
}

/// Whether everything in a plan was done between two points of a walk, in this order: what is erased,
/// up to `x`, what is written, up to `y`, and, if wanted, what is verified.
pub open spec fn is_carried_out_through(
    t: Trail,
    x: Trail,
    y: Trail,
    u: Trail,
    plan: Plan,
    given: Seq<Part>,
    verify: bool,
) -> bool {
    &&& walk::leads_to(t, x)
    &&& walk::leads_to(x, y)
    &&& walk::leads_to(y, u)
    &&& match plan {
        Plan::Single => {
            &&& did_erase_and_write(x, y, given[0])
            &&& verify ==> did_verify(y, u, given[0])
        },
        Plan::Ranges { ranges, parts } => {
            &&& forall|i: int| 0 <= i < ranges.len() ==> did_erase(t, x, #[trigger] ranges[i])
            &&& forall|i: int| 0 <= i < parts.len() ==> did_write(x, y, #[trigger] parts[i])
            &&& verify ==> forall|i: int|
                0 <= i < parts.len() ==> did_verify(y, u, #[trigger] parts[i])
        },
    }
}

/// Whether everything in a plan was done between two points of a walk: first all is erased, then all
/// is written and, if wanted, all is verified.
pub open spec fn is_carried_out(
    t: Trail,
    u: Trail,
    plan: Plan,
    given: Seq<Part>,
    verify: bool,
) -> bool {
    exists|x: Trail, y: Trail| is_carried_out_through(t, x, y, u, plan, given, verify)
}

/// A plan that is done is carried out whole.
pub(crate) proof fn lemma_plan_is_carried_out(t: Trail, plan: Plan, given: Seq<Part>, verify: bool)
    requires
        t.at >= 0,
        commands::plan_done(t, plan, given, verify).1 is Ok,
        plan matches Plan::Ranges { ranges, .. } ==> image::hold_something(ranges),
    ensures
        is_carried_out(t, commands::plan_done(t, plan, given, verify).0, plan, given, verify),
{
    let reach = Reach::Anything;
    let u = commands::plan_done(t, plan, given, verify).0;
    reveal(commands::plan_done);
    match plan {
        Plan::Single => {
            let part = given[0];
            let (y, _) = flash::part_written(t, part, true);
            promises::lemma_part_written(t, part, true, reach);
            promises::lemma_part_verified(y, part, reach);
            lemma_write_has_run(t, part, true);
            wording::law_part_commands_name_the_part(part);
            if verify {
                lemma_verify_has_run(y, part);
            }
            assert(is_carried_out_through(t, t, y, u, plan, given, verify));
        },
        Plan::Ranges { ranges, parts } => {
            let (x, _) = commands::ranges_erased(t, ranges, ranges.len());
            let (y, _) = commands::parts_written(x, parts, parts.len());
            promises::lemma_ranges_erased(t, ranges, ranges.len(), reach);
            promises::lemma_parts_written(x, parts, parts.len(), reach);
            promises::lemma_parts_verified(y, parts, parts.len(), reach);
            assert forall|i: int| 0 <= i < ranges.len() implies did_erase(
                t,
                x,
                #[trigger] ranges[i],
            ) by {
                lemma_erases_have_run(t, ranges, ranges.len(), i);
                wording::law_erase_command_names_its_range(ranges[i]);
            }
            assert forall|i: int| 0 <= i < parts.len() implies did_write(
                x,
                y,
                #[trigger] parts[i],
            ) by {
                lemma_writes_have_run(x, parts, parts.len(), i);
                wording::law_part_commands_name_the_part(parts[i]);
            }
            if verify {
                assert forall|i: int| 0 <= i < parts.len() implies did_verify(
                    y,
                    u,
                    #[trigger] parts[i],
                ) by {
                    lemma_verifies_have_run(y, parts, parts.len(), i);
                    wording::law_part_commands_name_the_part(parts[i]);
                }
            }
            assert(is_carried_out_through(t, x, y, u, plan, given, verify));
        },
    }
}

/// Whether a plan was carried out between two points of a walk, up to `d`, and the target was then
/// reset to run, if wanted.
pub open spec fn is_written_up_to(
    t: Trail,
    d: Trail,
    u: Trail,
    plan: Plan,
    given: Seq<Part>,
    verify: bool,
    run_after: bool,
) -> bool {
    &&& is_carried_out(t, d, plan, given, verify)
    &&& walk::leads_to(d, u)
    &&& run_after ==> has_run(d, u, "reset run"@)
}

/// Whether a plan was carried out between two points of a walk, and the target was then reset to run,
/// if wanted.
pub open spec fn is_written(
    t: Trail,
    u: Trail,
    plan: Plan,
    given: Seq<Part>,
    verify: bool,
    run_after: bool,
) -> bool {
    exists|d: Trail| is_written_up_to(t, d, u, plan, given, verify, run_after)
}

/// What happens in a part of a walk happens in the whole.
pub(crate) proof fn lemma_carried_out_inside(
    t: Trail,
    a: Trail,
    u: Trail,
    plan: Plan,
    given: Seq<Part>,
    verify: bool,
)
    requires
        walk::leads_to(t, a),
        is_carried_out(a, u, plan, given, verify),
    ensures
        is_carried_out(t, u, plan, given, verify),
{
    let (x, y) = choose|x: Trail, y: Trail|
        is_carried_out_through(a, x, y, u, plan, given, verify);
    if let Plan::Ranges { ranges, parts } = plan {
        assert forall|i: int| 0 <= i < ranges.len() implies did_erase(t, x, #[trigger] ranges[i]) by {
            assert(did_erase(a, x, ranges[i]));
            let range = ranges[i];
            let tcl = choose|tcl: Seq<char>|
                wording::erases(tcl, range.start as nat, (range.end - range.start) as nat)
                    && #[trigger] has_run(a, x, tcl);
            lemma_has_run_inside(t, a, x, x, tcl);
        }
    }
    assert(is_carried_out_through(t, x, y, u, plan, given, verify));
}

/// Writing an image succeeds only when the whole plan was carried out: every range was erased, then
/// every part was written, and then every part was verified and the target was reset, unless the user
/// did not want that.
pub proof fn law_success_means_the_whole_image_is_written(cli: Cli, t: Trail)
    requires
        t.at >= 0,
        commands::executed(t, cli).1 is Ok,
    ensures
        cli.command matches Commands::Flash { target, addr, verify, run_after } ==> {
            let end = commands::executed(t, cli).0;
            &&& promises::image_plan(
                t,
                cli.options,
                text::maybe(cli.config),
                target@,
                text::maybe(addr),
            ) matches Some((plan, parts))
            &&& is_written(t, end, plan, parts, verify, run_after)
        },
{
    if let Commands::Flash { target, addr, verify, run_after } = cli.command {
        let reach = Reach::Anything;
        let end = commands::executed(t, cli).0;
        reveal(commands::executed);
        reveal(commands::flash_image);
        reveal(commands::flash_done);
        let explicit = text::maybe(cli.config);
        promises::lemma_loaded(t, explicit, reach);
        let (u, catalog) = config::loaded(t, explicit);
        let address = commands::given_address(text::maybe(addr))->Ok_0;
        let images = catalog->Ok_0.images;
        promises::lemma_prepared(u, target@, address, images, reach);
        let (v, parts) = flash::prepared(u, target@, address, images);
        let parts = parts->Ok_0;
        promises::lemma_connected(v, cli.options, false, reach);
        let (x, entry) = session::connected(v, cli.options, false);
        promises::lemma_chip_read(x, reach);
        let (y, chip) = chip::chip_read(x);
        let flash_end = commands::end_of_flash(chip->Ok_0);
        promises::lemma_planned(y, parts, flash_end, reach);
        let (z, plan) = flash::planned(y, parts, flash_end);
        let plan = plan->Ok_0;
        flash::law_plan_is_sound(y, parts, flash_end);
        promises::lemma_plan_done(z, plan, parts, verify, reach);
        let (done, _) = commands::plan_done(z, plan, parts, verify);
        let (last, _) = commands::flash_done(x, parts, verify, run_after);
        promises::lemma_reset_to_run(done, "ok: reset, running"@, reach);
        promises::lemma_dropped(last, false, reach);
        lemma_plan_is_carried_out(z, plan, parts, verify);
        lemma_carried_out_inside(t, z, done, plan, parts, verify);
        if run_after {
            reveal(commands::reset_to_run);
            promises::lemma_run_of(done, "reset run"@, reach);
            lemma_run_has_run(done, "reset run"@);
            let (ran, _) = session::run_of(done, "reset run"@);
            lemma_has_run_inside(done, done, ran, end, "reset run"@);
        }
        assert(is_written_up_to(t, done, end, plan, parts, verify, run_after));
        assert(promises::image_plan(t, cli.options, explicit, target@, text::maybe(addr)) == Some(
            (plan, parts),
        ));
    }
}

/// Whether a GPNVM bit is read at `w`, between two points of a walk, and has a value.
pub open spec fn reads_bit(t: Trail, w: Trail, u: Trail, bit: u8, value: u8) -> bool {
    &&& walk::leads_to(t, w)
    &&& walk::leads_to(chip::gpnvm_read(w).0, u)
    &&& chip::gpnvm_read(w).1 matches Ok(bits)
    &&& bits.bit(bit) == value
}

/// A GPNVM bit that was changed has been read back: the change succeeds only when the command for
/// this bit and this value has run, and the bit was then, after some time, read with the value that
/// was asked for.
pub proof fn law_changed_bit_is_read_back(t: Trail, bit: u8, value: u8)
    requires
        t.at >= 0,
        commands::gpnvm_written(t, bit, value).1 is Ok,
    ensures
        exists|w: Trail, tcl: Seq<char>|
            reads_bit(t, w, commands::gpnvm_written(t, bit, value).0, bit, value)
                && (value <= 1 ==> wording::turns(tcl, bit as nat, value == 1))
                && #[trigger] has_run(t, w, tcl) && did_ask(t, w, Request::Sleep(50)),
{
    let reach = Reach::Anything;
    reveal(commands::gpnvm_written);
    reveal(commands::gpnvm_changed);
    promises::lemma_identity_read(t, reach);
    let (u, _) = chip::chip_accepted(t);
    promises::lemma_gpnvm_read(u, reach);
    let (v, _) = chip::gpnvm_read(u);
    let command = commands::gpnvm_command(bit, value);
    promises::lemma_run_of(v, command, reach);
    lemma_run_has_run(v, command);
    let (x, _) = session::run_of(v, command);
    let (y, _) = walk::ask_act(x, Request::Sleep(50));
    promises::lemma_gpnvm_read(y, reach);
    lemma_has_run_inside(t, v, x, y, command);
    lemma_act_asked(x, Request::Sleep(50));
    lemma_asked_inside(t, x, y, y, Request::Sleep(50));
    if value <= 1 {
        wording::law_gpnvm_command_names_its_bit(bit, value);
    }
    assert(reads_bit(t, y, commands::gpnvm_written(t, bit, value).0, bit, value));
}

/// The value of GPNVM bit 1 with which the chip starts from a boot source.
pub open spec fn source_bit(mode: BootMode) -> u8 {
    if mode is Flash {
        1
    } else {
        0
    }
}

/// The boot source that was selected has been read: selecting succeeds only when the bit for it was
/// read with the value for it, and only after the command for that has run where the bit was another.
pub proof fn law_selected_boot_source_is_read_back(t: Trail, mode: BootMode)
    requires
        t.at >= 0,
        commands::boot_selected(t, mode).1 is Ok,
    ensures
        exists|w: Trail| reads_bit(t, w, commands::boot_selected(t, mode).0, 1, source_bit(mode)),
        chip::gpnvm_read(t).1 matches Ok(bits) && (bits.bit(1) != source_bit(mode) ==> exists|
            tcl: Seq<char>,
        |
            wording::turns(tcl, 1, mode is Flash) && #[trigger] has_run(
                t,
                commands::boot_selected(t, mode).0,
                tcl,
            )),
{
    let reach = Reach::Anything;
    let end = commands::boot_selected(t, mode).0;
    reveal(commands::boot_selected);
    reveal(commands::gpnvm_changed);
    promises::lemma_gpnvm_read(t, reach);
    let (v, before) = chip::gpnvm_read(t);
    if before->Ok_0.bit(1) != commands::boot_bit(mode) {
        let command = commands::gpnvm_command(1, commands::boot_bit(mode));
        promises::lemma_run_of(v, command, reach);
        lemma_run_has_run(v, command);
        let (x, _) = session::run_of(v, command);
        let (y, _) = walk::ask_act(x, Request::Sleep(50));
        promises::lemma_gpnvm_read(y, reach);
        lemma_has_run_inside(t, v, x, end, command);
        wording::law_gpnvm_command_names_its_bit(1, commands::boot_bit(mode));
        assert(reads_bit(t, y, end, 1, source_bit(mode)));
    } else {
        assert(reads_bit(t, t, end, 1, source_bit(mode)));
    }
}

/// Whether a command leaves the target running or halted as it was found.
pub open spec fn leaves_target_as_found(command: Commands) -> bool {
    match command {
        Commands::Info => true,
        Commands::Gpnvm(GpnvmCommand::Show) => true,
        Commands::Read { .. } => true,
        Commands::Boot { reset, .. } => !reset,
        _ => false,
    }
}

/// Whether a session begins at `u`, and its target is brought back to its entry state at `x`, between
/// two points of a walk: where the target was running, it is resumed, and it is then seen to run.
pub open spec fn is_brought_back(
    t: Trail,
    u: Trail,
    x: Trail,
    end: Trail,
    options: OpenOcdOptions,
) -> bool {
    let (v, entry) = session::connected(u, options, true);
    &&& walk::leads_to(t, u)
    &&& walk::leads_to(v, x)
    &&& walk::leads_to(x, end)
    &&& entry matches Ok(entry)
    &&& session::restored(x, entry.resume).1 is Ok
    &&& walk::leads_to(session::restored(x, entry.resume).0, end)
    &&& entry.state == "running"@ ==> has_run(x, end, "resume"@)
    &&& entry.state == "running"@ || entry.state == "halted"@
}

/// A target that is brought back to its entry state was resumed where it was running.
pub(crate) proof fn lemma_brought_back(
    t: Trail,
    u: Trail,
    x: Trail,
    y: Trail,
    end: Trail,
    options: OpenOcdOptions,
)
    requires
        x.at >= 0,
        walk::leads_to(t, u),
        session::connected(u, options, true).1 is Ok,
        walk::leads_to(session::connected(u, options, true).0, x),
        session::restored(x, session::connected(u, options, true).1->Ok_0.resume) == (
            y,
            Ok::<(), Halt>(()),
        ),
        walk::leads_to(y, end),
    ensures
        is_brought_back(t, u, x, end, options),
{
    let entry = session::connected(u, options, true).1->Ok_0;
    session::law_entry_state_is_known(u, options, true);
    promises::lemma_restored_link(x, entry.resume, Reach::Anything);
    if entry.resume {
        reveal(session::resumed);
        reveal(session::run_of);
        let (z, _) = session::run_link(x, "resume"@);
        promises::lemma_run_of(x, "resume"@, Reach::Anything);
        lemma_run_has_run(x, "resume"@);
        promises::lemma_state_link(z, Reach::Anything);
        lemma_has_run_inside(x, x, z, end, "resume"@);
    }
}

/// A command that leaves the target as it was found succeeds only when it has brought it back to
/// its entry state: where the target was running, it has been resumed and was seen to run.
pub proof fn law_target_is_left_as_it_was_found(cli: Cli, t: Trail)
    requires
        t.at >= 0,
        leaves_target_as_found(cli.command),
        commands::executed(t, cli).1 is Ok,
    ensures
        exists|u: Trail, x: Trail|
            is_brought_back(t, u, x, commands::executed(t, cli).0, cli.options),
{
    let end = commands::executed(t, cli).0;
    reveal(commands::executed);
    let reach = Reach::Anything;
    match cli.command {
        Commands::Info => {
            reveal(commands::info);
            reveal(commands::info_told);
            promises::lemma_connected(t, cli.options, true, reach);
            let (u, entry) = session::connected(t, cli.options, true);
            promises::lemma_chip_read(u, reach);
            let (v, chip) = chip::chip_read(u);
            promises::lemma_gpnvm_read(v, reach);
            let (x, bits) = chip::gpnvm_read(v);
            let request = Request::Print(
                commands::info_text(
                    chip->Ok_0,
                    bits->Ok_0,
                    entry->Ok_0.state,
                    cli.options,
                ),
            );
            let (y, _) = walk::ask_act(x, request);
            promises::lemma_restored_link(y, entry->Ok_0.resume, reach);
            let (z, _) = session::restored(y, entry->Ok_0.resume);
            promises::lemma_dropped(z, false, reach);
            lemma_brought_back(t, t, y, z, end, cli.options);
        },
        Commands::Gpnvm(_) => {
            reveal(commands::gpnvm);
            reveal(commands::gpnvm_told);
            promises::lemma_connected(t, cli.options, true, reach);
            let (u, entry) = session::connected(t, cli.options, true);
            promises::lemma_identity_read(u, reach);
            let (v, _) = chip::chip_accepted(u);
            promises::lemma_gpnvm_read(v, reach);
            let (x, bits) = chip::gpnvm_read(v);
            let request = Request::Print(crate::target::gpnvm_text(bits->Ok_0));
            let (y, _) = walk::ask_act(x, request);
            promises::lemma_restored_link(y, entry->Ok_0.resume, reach);
            let (z, _) = session::restored(y, entry->Ok_0.resume);
            promises::lemma_dropped(z, false, reach);
            lemma_brought_back(t, t, y, z, end, cli.options);
        },
        Commands::Read { address, length, out } => {
            reveal(commands::read);
            reveal(commands::read_done);
            let (addr, count) = commands::read_range(address@, length@)->Ok_0;
            let (s, path) = commands::output_found(t, text::maybe(out));
            lemma_output_found(t, text::maybe(out));
            promises::lemma_connected(s, cli.options, true, reach);
            let (u, entry) = session::connected(s, cli.options, true);
            promises::lemma_identity_read(u, reach);
            let (v, _) = chip::chip_accepted(u);
            lemma_memory_taken(v, addr, count, path->Ok_0);
            let (y, _) = memory_taken(v, addr, count, path->Ok_0);
            promises::lemma_restored_link(y, entry->Ok_0.resume, reach);
            let (z, _) = session::restored(y, entry->Ok_0.resume);
            promises::lemma_dropped(z, false, reach);
            lemma_brought_back(t, s, y, z, end, cli.options);
        },
        Commands::Boot { mode, reset } => {
            reveal(commands::boot);
            reveal(commands::boot_done);
            promises::lemma_connected(t, cli.options, true, reach);
            let (u, entry) = session::connected(t, cli.options, true);
            promises::lemma_identity_read(u, reach);
            let (v, _) = chip::chip_accepted(u);
            lemma_boot_selected(v, mode);
            let (y, _) = commands::boot_selected(v, mode);
            promises::lemma_restored_link(y, entry->Ok_0.resume, reach);
            let (z, _) = session::restored(y, entry->Ok_0.resume);
            promises::lemma_dropped(z, false, reach);
            lemma_brought_back(t, t, y, z, end, cli.options);
        },
        _ => {},
    }
}

/// Finding the file for the output goes on with the walk.
pub(crate) proof fn lemma_output_found(t: Trail, out: Option<Seq<char>>)
    requires
        t.at >= 0,
    ensures
        promises::settles(t, commands::output_found(t, out), Reach::Anything),
{
    reveal(commands::output_found);
}

/// Memory is shown, or saved in a file.
pub open spec fn memory_taken(t: Trail, address: u32, count: usize, path: Option<Seq<char>>) -> (
    Trail,
    Result<(), Halt>,
) {
    match path {
        Some(path) => commands::memory_saved(t, address, count, path),
        None => commands::memory_shown(t, address, count),
    }
}

/// Showing or saving memory goes on with the walk.
pub(crate) proof fn lemma_memory_taken(t: Trail, address: u32, count: usize, path: Option<Seq<char>>)
    requires
        t.at >= 0,
    ensures
        promises::settles(t, memory_taken(t, address, count, path), Reach::Anything),
{
    let reach = Reach::Anything;
    if let Some(path) = path {
        reveal(commands::memory_saved);
        let tcl = commands::dump_command(path, address, count as nat);
        let notice = Request::Print(
            "Reading "@ + text::decimal(count as nat) + " bytes from "@ + text::hex8(
                address as nat,
            ) + "..."@,
        );
        if let (y, Ok(())) = walk::ask_act(t, notice) {
            promises::lemma_run_of(y, tcl, reach);
        }
    } else {
        reveal(commands::memory_shown);
        promises::lemma_bytes_of(t, address, count as nat, reach);
    }
}

/// Selecting the boot source goes on with the walk.
pub(crate) proof fn lemma_boot_selected(t: Trail, mode: BootMode)
    requires
        t.at >= 0,
    ensures
        promises::settles(t, commands::boot_selected(t, mode), Reach::Anything),
{
    reveal(commands::boot_selected);
    promises::lemma_gpnvm_read(t, Reach::Anything);
    if let (y, Ok(_)) = chip::gpnvm_read(t) {
        promises::lemma_gpnvm_changed(y, 1, commands::boot_bit(mode), Reach::Anything);
    }
}

/// Whether something was asked for between two points of a walk.
pub open spec fn did_ask(t: Trail, u: Trail, request: Request) -> bool {
    exists|k: int| t.asked.len() <= k < u.asked.len() && #[trigger] u.asked[k] == request
}

/// What was asked for in a part of a walk was asked for in the whole.
pub(crate) proof fn lemma_asked_inside(t: Trail, a: Trail, b: Trail, u: Trail, request: Request)
    requires
        walk::leads_to(t, a),
        did_ask(a, b, request),
        walk::leads_to(b, u),
    ensures
        did_ask(t, u, request),
{
    let k = choose|k: int| a.asked.len() <= k < b.asked.len() && #[trigger] b.asked[k] == request;
    assert(u.asked[k] == request);
}

/// What is carried out was asked for.
pub(crate) proof fn lemma_act_asked(t: Trail, request: Request)
    requires
        walk::ask_act(t, request).1 is Ok,
    ensures
        did_ask(t, walk::ask_act(t, request).0, request),
        walk::leads_to(t, walk::ask_act(t, request).0),
{
    let u = walk::ask_act(t, request).0;
    assert(u.asked[t.asked.len() as int] == request);
}

/// A command in a session that succeeds has reached the target, and the session was ended behind it.
pub(crate) proof fn lemma_session_succeeded(
    t: Trail,
    options: OpenOcdOptions,
    restore: bool,
    body: spec_fn(Trail, Entry) -> (Trail, Result<(), Halt>),
)
    requires
        t.at >= 0,
        commands::in_session(t, options, restore, body).1 is Ok,
        forall|u: Trail, entry: Entry|
            u.at >= 0 ==> promises::settles(u, #[trigger] body(u, entry), Reach::Anything),
    ensures
        ({
            let (u, entry) = session::connected(t, options, restore);
            &&& entry is Ok
            &&& u.at >= 0
            &&& walk::leads_to(t, u)
            &&& body(u, entry->Ok_0).1 is Ok
            &&& walk::leads_to(u, body(u, entry->Ok_0).0)
            &&& walk::leads_to(
                body(u, entry->Ok_0).0,
                commands::in_session(t, options, restore, body).0,
            )
        }),
{
    promises::lemma_connected(t, options, restore, Reach::Anything);
    let (u, entry) = session::connected(t, options, restore);
    let step = body(u, entry->Ok_0);
    assert(promises::settles(u, step, Reach::Anything));
    promises::lemma_dropped(step.0, entry->Ok_0.resume && step.1 is Err, Reach::Anything);
}

/// Whether a chip was found between two points of a walk, and its identity is that of the supported
/// chip.
pub open spec fn did_find_chip(t: Trail, u: Trail, chip: ChipInfo) -> bool {
    exists|w: Trail|
        walk::leads_to(t, w) && walk::leads_to((#[trigger] chip::chip_read(w)).0, u)
            && chip::chip_read(w).1 == Ok::<ChipInfo, Halt>(chip)
}

/// Whether a command erases what the user names on a chip: all flash, or the bytes from the start up
/// to, and without, the end.
pub open spec fn erases_named(
    tcl: Seq<char>,
    start: Option<Seq<char>>,
    end: Option<Seq<char>>,
    chip: ChipInfo,
) -> bool {
    let flash_end = (0x40_0000 + chip.flash.size) as nat;
    let first = wording::named_address(start, 0x40_0000);
    let last = wording::named_address(end, flash_end);
    if start is None && end is None {
        tcl == "flash erase_sector 0 0 last"@
    } else {
        0x40_0000 <= first < last <= flash_end && wording::erases_exactly(
            tcl,
            first,
            (last - first) as nat,
        )
    }
}

/// What is erased is what the user names.
pub(crate) proof fn lemma_erasure_is_named(
    start: Option<Seq<char>>,
    end: Option<Seq<char>>,
    a: Option<u32>,
    b: Option<u32>,
    chip: ChipInfo,
)
    requires
        commands::given_address(start) == Ok::<Option<u32>, Failure>(a),
        commands::given_address(end) == Ok::<Option<u32>, Failure>(b),
        chip.flash.wf(),
    ensures
        commands::erasure(a, b, chip) matches Ok(erasure) ==> erases_named(
            erasure.command,
            start,
            end,
            chip,
        ),
{
    wording::law_given_address_is_the_named_one(start);
    wording::law_given_address_is_the_named_one(end);
    wording::law_erasure_names_its_range(a, b, chip);
}

/// Erasing goes on with the walk.
pub(crate) proof fn lemma_erase_done_settles(a: Option<u32>, b: Option<u32>)
    ensures
        forall|v: Trail|
            v.at >= 0 ==> promises::settles(
                v,
                #[trigger] commands::erase_done(v, a, b),
                Reach::Anything,
            ),
{
    let reach = Reach::Anything;
    assert forall|v: Trail| v.at >= 0 implies promises::settles(
        v,
        #[trigger] commands::erase_done(v, a, b),
        reach,
    ) by {
        reveal(commands::erase_done);
        promises::lemma_chip_read(v, reach);
        if let (x, Ok(chip)) = chip::chip_read(v) {
            if let Ok(erasure) = commands::erasure(a, b, chip) {
                let notice = Request::Print("Erasing "@ + erasure.what + "..."@);
                if let (y, Ok(())) = walk::ask_act(x, notice) {
                    promises::lemma_flash_run(y, erasure.command, reach);
                }
            }
        }
    }
}

/// An erase succeeds only when the command that erases what the user names has run: all flash, or
/// the bytes from the start up to, and without, the end.
pub proof fn law_erase_erases_what_is_named(cli: Cli, t: Trail)
    requires
        t.at >= 0,
        commands::executed(t, cli).1 is Ok,
    ensures
        cli.command matches Commands::Erase { start, end, yes } ==> exists|
            chip: ChipInfo,
            tcl: Seq<char>,
        |
            (#[trigger] did_find_chip(t, commands::executed(t, cli).0, chip)) && erases_named(
                tcl,
                text::maybe(start),
                text::maybe(end),
                chip,
            ) && #[trigger] has_run(t, commands::executed(t, cli).0, tcl),
{
    if let Commands::Erase { start, end, yes } = cli.command {
        let (start, end) = (text::maybe(start), text::maybe(end));
        let done = commands::executed(t, cli).0;
        let reach = Reach::Anything;
        reveal(commands::executed);
        reveal(commands::erase);
        let a = commands::given_address(start)->Ok_0;
        let b = commands::given_address(end)->Ok_0;
        let question = commands::erase_question(a, b)->Ok_0;
        promises::lemma_confirmed(t, question, reach);
        let u = if yes {
            t
        } else {
            commands::confirmed(t, question).0
        };
        let body = |v: Trail, entry: Entry| commands::erase_done(v, a, b);
        lemma_erase_done_settles(a, b);
        lemma_session_succeeded(u, cli.options, false, body);
        let (v, entry) = session::connected(u, cli.options, false);
        let step = body(v, entry->Ok_0);
        reveal(commands::erase_done);
        promises::lemma_chip_read(v, reach);
        let (x, chip) = chip::chip_read(v);
        let chip = chip->Ok_0;
        chip::law_chip_is_sound(v);
        let erasure = commands::erasure(a, b, chip)->Ok_0;
        let notice = Request::Print("Erasing "@ + erasure.what + "..."@);
        let (y, _) = walk::ask_act(x, notice);
        promises::lemma_flash_run(y, erasure.command, reach);
        lemma_flash_has_run(y, erasure.command);
        let (z, _) = flash::flash_run(y, erasure.command);
        lemma_has_run_inside(t, y, z, done, erasure.command);
        lemma_erasure_is_named(start, end, a, b, chip);
        assert(did_find_chip(t, done, chip)) by {
            assert(walk::leads_to(chip::chip_read(v).0, done));
        }
    }
}

/// Whether bytes only look at the target.
pub open spec fn looks(bytes: Seq<u8>) -> bool {
    promises::may_send(Reach::Look, bytes)
}

/// Whether bytes look at the target and do nothing else, but for halting it at the start of a session
/// and ending the session: the target is not resumed, and no memory is written to a file.
pub open spec fn only_watches(bytes: Seq<u8>) -> bool {
    promises::may_send(Reach::Allow(|tcl: Seq<char>| false), bytes)
}

/// Whether all that a command sends, whatever the replies are, only watches the target or carries a
/// command of some sort.
pub open spec fn sends_only(cli: Cli, t: Trail, allowed: spec_fn(Seq<char>) -> bool) -> bool {
    commands::executed(t, cli).1 matches Err(Halt::Ask(Request::Send(bytes))) ==> {
        ||| only_watches(bytes)
        ||| exists|tcl: Seq<char>| allowed(tcl) && #[trigger] promises::carries(bytes, tcl)
    }
}

/// What may be sent because commands of some sort may be run only watches or carries such a command.
pub(crate) proof fn lemma_sends_only(cli: Cli, t: Trail, allowed: spec_fn(Seq<char>) -> bool)
    requires
        promises::keeps_to(t, commands::executed(t, cli), Reach::Allow(allowed)),
    ensures
        sends_only(cli, t, allowed),
{
    if let Err(Halt::Ask(Request::Send(bytes))) = commands::executed(t, cli).1 {
        let reach = Reach::Allow(allowed);
        let nothing = Reach::Allow(|tcl: Seq<char>| false);
        assert(promises::may_send(reach, bytes));
        if exists|tcl: Seq<char>|
            promises::may_look(reach, tcl) && promises::carries(bytes, tcl) {
            let tcl = choose|tcl: Seq<char>|
                promises::may_look(reach, tcl) && promises::carries(bytes, tcl);
            assert(promises::may_look(nothing, tcl));
        }
    }
}

/// An erase sends nothing but the command that erases what the user names, and what only watches.
pub proof fn law_erase_sends_nothing_else(cli: Cli, t: Trail)
    requires
        t.at >= 0,
    ensures
        cli.command matches Commands::Erase { start, end, yes } ==> sends_only(
            cli,
            t,
            |tcl: Seq<char>|
                exists|chip: ChipInfo|
                    chip.flash.wf() && #[trigger] erases_named(
                        tcl,
                        text::maybe(start),
                        text::maybe(end),
                        chip,
                    ),
        ),
{
    if let Commands::Erase { start, end, yes } = cli.command {
        let (from, to) = (text::maybe(start), text::maybe(end));
        let allowed = |tcl: Seq<char>|
            exists|chip: ChipInfo|
                chip.flash.wf() && #[trigger] erases_named(
                    tcl,
                    text::maybe(start),
                    text::maybe(end),
                    chip,
                );
        let reach = Reach::Allow(allowed);
        assert forall|a: Option<u32>, b: Option<u32>, chip: ChipInfo|
            commands::given_address(from) == Ok::<Option<u32>, Failure>(a)
                && commands::given_address(to) == Ok::<Option<u32>, Failure>(b)
                && chip.flash.wf() implies (#[trigger] commands::erasure(
            a,
            b,
            chip,
        ) matches Ok(erasure) ==> promises::may_run(reach, erasure.command)) by {
            lemma_erasure_is_named(from, to, a, b, chip);
            if let Ok(erasure) = commands::erasure(a, b, chip) {
                assert(erases_named(erasure.command, from, to, chip));
                assert(allowed(erasure.command));
            }
        }
        promises::lemma_erase(t, cli.options, from, to, yes, reach);
        reveal(commands::executed);
        lemma_sends_only(cli, t, allowed);
    }
}

/// Whether memory was read between two points of a walk: so many values of a width from an address
/// on.
pub open spec fn did_read(
    t: Trail,
    u: Trail,
    first: nat,
    width: nat,
    count: nat,
    values: Seq<u32>,
) -> bool {
    exists|w: Trail, address: u32, script: Seq<char>|
        walk::leads_to(t, w) && walk::leads_to(
            (#[trigger] session::memory_of(w, address, width, count)).0,
            u,
        ) && session::memory_of(w, address, width, count).1 == Ok::<Seq<u32>, Halt>(values)
            && address == first && w.asked.len() < u.asked.len() && u.asked[w.asked.len() as int]
            == Request::Send(tcl::frame(script)) && #[trigger] wording::requests_memory(
            script,
            first,
            width,
            count,
        ) && values.len() == count
}

/// Reading memory asks for it.
pub(crate) proof fn lemma_memory_was_read(t: Trail, u: Trail, address: u32, width: u64, count: u64)
    requires
        t.at >= 0,
        session::memory_of(t, address, width as nat, count as nat).1 is Ok,
        walk::leads_to(session::memory_of(t, address, width as nat, count as nat).0, u),
    ensures
        did_read(
            t,
            u,
            address as nat,
            width as nat,
            count as nat,
            session::memory_of(t, address, width as nat, count as nat).1->Ok_0,
        ),
{
    let v = session::memory_of(t, address, width as nat, count as nat).0;
    let script = session::memory_request(address, width as nat, count as nat);
    let request = Request::Send(tcl::frame(script));
    promises::lemma_memory_of(t, address, width as nat, count as nat, Reach::Anything);
    wording::law_memory_request_names_its_values(address, width, count);
    assert(v.asked.len() > t.asked.len() && v.asked[t.asked.len() as int] == request) by {
        reveal(session::memory_of);
        reveal(session::value_of);
        reveal(session::value_link);
        reveal(session::exchange);
        let (x, _) = walk::ask_done(t, request);
        promises::lemma_received(x, Seq::empty(), Reach::Anything);
        assert(x.asked[t.asked.len() as int] == request);
    }
    assert(session::memory_of(t, address, width as nat, count as nat).1->Ok_0.len() == count) by {
        reveal(session::memory_of);
    }
    assert(u.asked[t.asked.len() as int] == v.asked[t.asked.len() as int]);
}

/// Whether memory was saved in a file between two points of a walk: so many bytes from an address on,
/// in the file with the absolute path of the one that the user names.
pub open spec fn did_save(t: Trail, u: Trail, out: Seq<char>, first: nat, length: nat) -> bool {
    exists|path: String, tcl: Seq<char>|
        (#[trigger] walk::told(t, u, Request::MakeAbsolute(out), Reply::Path(path, true)))
            && wording::saves(tcl, path@, first, length) && #[trigger] has_run(t, u, tcl)
}

/// Whether memory was shown between two points of a walk: the bytes that were read, so many of them
/// from an address on.
pub open spec fn did_show(t: Trail, u: Trail, first: nat, length: nat) -> bool {
    exists|values: Seq<u32>, data: Seq<u8>|
        (#[trigger] did_read(t, u, first, 8, length, values)) && data.len() == length && (forall|i: int|
            0 <= i < length ==> (#[trigger] data[i]) as u32 == values[i]) && #[trigger] did_ask(
            t,
            u,
            Request::Print(dump::dump_text(first, data)),
        )
}

/// A read succeeds only when the bytes that the user names were read: so many of them, from the
/// address on. They were saved in the file that the user names, or shown.
pub proof fn law_read_takes_what_is_named(cli: Cli, t: Trail)
    requires
        t.at >= 0,
        commands::executed(t, cli).1 is Ok,
    ensures
        cli.command matches Commands::Read { address, length, out } ==> {
            let end = commands::executed(t, cli).0;
            &&& number::number(address@) matches Ok(first)
            &&& number::number(length@) matches Ok(count)
            &&& count > 0
            &&& first + count <= 0x1_0000_0000
            &&& match out {
                Some(out) => did_save(t, end, out@, first, count),
                None => did_show(t, end, first, count),
            }
        },
{
    if let Commands::Read { address, length, out } = cli.command {
        let reach = Reach::Anything;
        let end = commands::executed(t, cli).0;
        reveal(commands::executed);
        reveal(commands::read);
        let (first, count) = commands::read_range(address@, length@)->Ok_0;
        let (s, path) = commands::output_found(t, text::maybe(out));
        lemma_output_found(t, text::maybe(out));
        let path = path->Ok_0;
        let body = |v: Trail, entry: Entry| commands::read_done(v, entry, first, count, path);
        assert forall|v: Trail, entry: Entry| v.at >= 0 implies promises::settles(
            v,
            #[trigger] body(v, entry),
            reach,
        ) by {
            reveal(commands::read_done);
            promises::lemma_identity_read(v, reach);
            if let (x, Ok(())) = chip::chip_accepted(v) {
                lemma_memory_taken(x, first, count, path);
                promises::lemma_then_restored(
                    v,
                    memory_taken(x, first, count, path),
                    entry,
                    reach,
                );
            }
        }
        lemma_session_succeeded(s, cli.options, true, body);
        let (u, entry) = session::connected(s, cli.options, true);
        let entry = entry->Ok_0;
        reveal(commands::read_done);
        promises::lemma_identity_read(u, reach);
        let (v, _) = chip::chip_accepted(u);
        lemma_memory_taken(v, first, count, path);
        let (y, _) = memory_taken(v, first, count, path);
        promises::lemma_restored_link(y, entry.resume, reach);
        assert(walk::leads_to(y, end));
        if let Some(file) = path {
            reveal(commands::memory_saved);
            let tcl = commands::dump_command(file, first, count as nat);
            let notice = Request::Print(
                "Reading "@ + text::decimal(count as nat) + " bytes from "@ + text::hex8(
                    first as nat,
                ) + "..."@,
            );
            let (x, _) = walk::ask_act(v, notice);
            promises::lemma_run_of(x, tcl, reach);
            lemma_run_has_run(x, tcl);
            let (z, _) = session::run_of(x, tcl);
            lemma_has_run_inside(t, x, z, end, tcl);
            wording::law_dump_command_names_its_range(file, first, count as u64);
            reveal(commands::output_found);
            let request = Request::MakeAbsolute(out->0@);
            walk::lemma_told(t, request);
            let reply = walk::ask(t, request).1->Ok_0;
            walk::lemma_told_inside(t, t, s, end, request, reply);
            let shown = reply->Path_0;
            assert(reply == Reply::Path(shown, true));
            assert(shown@ == file);
            assert(did_save(t, end, out->0@, first as nat, count as nat));
        } else {
            reveal(commands::memory_shown);
            reveal(session::bytes_of);
            promises::lemma_bytes_of(v, first, count as nat, reach);
            promises::lemma_memory_of(v, first, 8, count as nat, reach);
            let values = session::memory_of(v, first, 8, count as nat).1->Ok_0;
            let (x, data) = session::bytes_of(v, first, count as nat);
            let data = data->Ok_0;
            readings::law_bytes_are_the_values(values);
            let request = Request::Print(dump::dump_text(first as nat, data));
            lemma_act_asked(x, request);
            lemma_asked_inside(t, x, y, end, request);
            lemma_memory_was_read(v, end, first, 8, count as u64);
            lemma_read_inside(t, v, end, first as nat, 8, count as nat, values);
            reveal(commands::output_found);
            assert(did_show(t, end, first as nat, count as nat));
        }
    }
}

/// A read sends nothing but the command that saves what the user names, where there is a file for it,
/// what only watches, and what resumes the target.
pub proof fn law_read_sends_nothing_else(cli: Cli, t: Trail)
    requires
        t.at >= 0,
    ensures
        cli.command matches Commands::Read { address, length, out } ==> sends_only(
            cli,
            t,
            |tcl: Seq<char>|
                tcl == "resume"@ || (out is Some && saves_named(tcl, address@, length@)),
        ),
{
    if let Commands::Read { address, length, out } = cli.command {
        let allowed = |tcl: Seq<char>|
            tcl == "resume"@ || (out is Some && saves_named(tcl, address@, length@));
        let reach = Reach::Allow(allowed);
        assert forall|first: u32, count: usize, path: Seq<char>|
            reach is Allow && text::maybe(out) is Some && commands::read_range(address@, length@)
                == Ok::<(u32, usize), Failure>((first, count)) implies promises::may_run(
            reach,
            #[trigger] commands::dump_command(path, first, count as nat),
        ) by {
            wording::law_dump_command_names_its_range(path, first, count as u64);
            let tcl = commands::dump_command(path, first, count as nat);
            assert(wording::saves(tcl, path, first as nat, count as nat));
            assert(saves_named(tcl, address@, length@));
            assert(allowed(tcl));
        }
        assert(allowed("resume"@));
        promises::lemma_read(t, cli.options, address@, length@, text::maybe(out), reach);
        reveal(commands::executed);
        lemma_sends_only(cli, t, allowed);
    }
}

/// Whether a command saves what the user names, in some file.
pub open spec fn saves_named(tcl: Seq<char>, address: Seq<char>, length: Seq<char>) -> bool {
    &&& number::number(address) matches Ok(first)
    &&& number::number(length) matches Ok(count)
    &&& exists|path: Seq<char>| #[trigger] wording::saves(tcl, path, first, count)
}

/// What was read in a part of a walk was read in the whole.
pub(crate) proof fn lemma_read_inside(
    t: Trail,
    a: Trail,
    u: Trail,
    first: nat,
    width: nat,
    count: nat,
    values: Seq<u32>,
)
    requires
        walk::leads_to(t, a),
        did_read(a, u, first, width, count, values),
    ensures
        did_read(t, u, first, width, count, values),
{
    let (w, address, script) = choose|w: Trail, address: u32, script: Seq<char>|
        walk::leads_to(a, w) && walk::leads_to(
            (#[trigger] session::memory_of(w, address, width, count)).0,
            u,
        ) && session::memory_of(w, address, width, count).1 == Ok::<Seq<u32>, Halt>(values)
            && address == first && w.asked.len() < u.asked.len() && u.asked[w.asked.len() as int]
            == Request::Send(tcl::frame(script)) && #[trigger] wording::requests_memory(
            script,
            first,
            width,
            count,
        ) && values.len() == count;
    assert(walk::leads_to(t, w));
    assert(session::memory_of(w, address, width, count).1 == Ok::<Seq<u32>, Halt>(values));
    assert(wording::requests_memory(script, first, width, count));
}

/// What was read up to a point of a walk was read up to a later one.
pub(crate) proof fn lemma_read_up_to(
    t: Trail,
    a: Trail,
    u: Trail,
    first: nat,
    width: nat,
    count: nat,
    values: Seq<u32>,
)
    requires
        did_read(t, a, first, width, count, values),
        walk::leads_to(a, u),
    ensures
        did_read(t, u, first, width, count, values),
{
    let (w, address, script) = choose|w: Trail, address: u32, script: Seq<char>|
        walk::leads_to(t, w) && walk::leads_to(
            (#[trigger] session::memory_of(w, address, width, count)).0,
            a,
        ) && session::memory_of(w, address, width, count).1 == Ok::<Seq<u32>, Halt>(values)
            && address == first && w.asked.len() < a.asked.len() && a.asked[w.asked.len() as int]
            == Request::Send(tcl::frame(script)) && #[trigger] wording::requests_memory(
            script,
            first,
            width,
            count,
        ) && values.len() == count;
    assert(u.asked[w.asked.len() as int] == a.asked[w.asked.len() as int]);
    assert(session::memory_of(w, address, width, count).1 == Ok::<Seq<u32>, Halt>(values));
    assert(wording::requests_memory(script, first, width, count));
}

} // verus!
