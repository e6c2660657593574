//! The commands.
use crate::chip;
use crate::chip::{read_gpnvm, require_sam4e8c};
use crate::config;
use crate::config::{
    init_config, load_config, print_config_directory, Image, ImageEntry, ImagePart, PartEntry,
};
use crate::dump;
use crate::dump::hexdump;
use crate::error;
use crate::error::{AppError, AppResult, Failure};
use crate::flash;
use crate::flash::{
    plan_flash, prepare_flash_parts, run_flash, verify_part, write_part, FlashPlan, Plan,
};
use crate::image;
use crate::image::{erase_range_command, FlashPart, ImageFormat, Part};
use crate::number;
use crate::number::{parse_absolute_addr, parse_flash_addr, parse_positive_usize};
use crate::openocd;
use crate::openocd::{
    openocd_args, openocd_start_error, path_string, validate_tcl_value, OpenOcdOptions,
};
use crate::session;
use crate::session::{connect, connect_read_only, read8, run, value, Entry, Session, CURRENT_STATE};
use crate::target;
use crate::target::{
    normalize_flash_addr, print_gpnvm, ChipInfo, Gpnvm, FLASH_BASE, SRAM_BASE,
};
use crate::tcl;
use crate::tcl::tcl_literal;
use crate::text;
use crate::text::{
    cat, cat3, cat4, cat5, decimal_text, hex8_text, hex_text, join_from, same, to_lower, trim,
};
use crate::walk;
use crate::walk::{lift, Halt, Op, Reply, Request, Stop, Trail, Walk};
use std::ops::Range;
use vstd::prelude::*;

verus! {

/// Where the chip starts.
#[derive(Debug, Clone, Copy, PartialEq, Eq, Structural)]
pub enum BootMode {
    /// From flash.
    Flash,
    /// From the ROM with its boot loader.
    Rom,
}

/// The mode that a word stands for.
pub open spec fn boot_mode(word: Seq<char>) -> Option<BootMode> {
    if word == "flash"@ || word == "app"@ {
        Some(BootMode::Flash)
    } else if word == "rom"@ || word == "samba"@ || word == "sam-ba"@ || word == "bootloader"@ {
        Some(BootMode::Rom)
    } else {
        None
    }
}

/// Reads the name of a boot mode.
pub fn parse_boot_mode(word: &str) -> (mode: Option<BootMode>)
    ensures
        mode == boot_mode(word@),
{
    if same(word, "flash") || same(word, "app") {
        Some(BootMode::Flash)
    } else if same(word, "rom") || same(word, "samba") || same(word, "sam-ba") || same(
        word,
        "bootloader",
    ) {
        Some(BootMode::Rom)
    } else {
        None
    }
}

/// What to do with the GPNVM bits.
#[derive(Debug)]
pub enum GpnvmCommand {
    /// Show them.
    Show,
    /// Set one to 1. Bit 0 needs `force`.
    SetBit { bit: u8, force: bool },
    /// Clear one to 0.
    ClearBit { bit: u8 },
}

/// What to do.
#[derive(Debug)]
pub enum Commands {
    /// Print the directory of the user's configuration.
    ConfigDirectory,
    /// Create a configuration file.
    ConfigInit,
    /// Show chip, memory, GPNVM, core, and link information.
    Info,
    /// List named images.
    Images,
    /// Program a named image or an image file.
    Flash { target: String, addr: Option<String>, verify: bool, run_after: bool },
    /// Select where the chip starts.
    Boot { mode: BootMode, reset: bool },
    /// Read or change GPNVM bits.
    Gpnvm(GpnvmCommand),
    /// Erase all flash or an address range.
    Erase { start: Option<String>, end: Option<String>, yes: bool },
    /// Read memory to the terminal or a file.
    Read { address: String, length: String, out: Option<String> },
    /// Reset the target.
    Reset { halt: bool },
    /// Halt the core.
    Halt,
    /// Resume the core.
    Resume,
    /// Run a GDB server until interrupted.
    Gdb { port: u16 },
    /// Run OpenOCD Tcl without checks.
    Raw { command: Vec<String> },
}

/// What the user gave.
#[derive(Debug)]
pub struct Cli {
    pub options: OpenOcdOptions,
    /// The configuration file to use.
    pub config: Option<String>,
    pub command: Commands,
}

/// A command inside a session with the target: the session is ended behind it, and the target is
/// resumed where the command is to leave it as it was found and did not get that far.
pub open spec fn in_session(
    t: Trail,
    options: OpenOcdOptions,
    restore: bool,
    body: spec_fn(Trail, Entry) -> (Trail, Result<(), Halt>),
) -> (Trail, Result<(), Halt>) {
    match session::connected(t, options, restore) {
        (u, Err(halt)) => (u, Err(halt)),
        (u, Ok(entry)) => {
            let step = body(u, entry);
            session::closed(step, entry.resume && step.1 is Err)
        },
    }
}

/// A step, and then the entry state of the target is restored.
pub open spec fn then_restored(step: (Trail, Result<(), Halt>), entry: Entry) -> (
    Trail,
    Result<(), Halt>,
) {
    match step {
        (t, Ok(())) => session::restored(t, entry.resume),
        _ => step,
    }
}

/// A size in KB.
pub open spec fn kb(bytes: int) -> Seq<char> {
    text::decimal((bytes / 1024) as nat)
}

/// What is shown of the chip and the link.
pub open spec fn info_text(chip: ChipInfo, bits: Gpnvm, state: Seq<char>, options: OpenOcdOptions) -> Seq<
    char,
> {
    "SAM4E\n  Part          "@ + target::chip_name(chip.exid) + "\n  CHIPID        CIDR="@
        + text::hex8(chip.cidr as nat) + " EXID="@ + text::hex8(chip.exid as nat)
        + "\n  Flash         "@ + kb(chip.flash.size as int) + " KB, "@ + text::hex8(
        FLASH_BASE as nat,
    ) + "-"@ + text::hex8((FLASH_BASE + chip.flash.size - 1) as nat) + " ("@ + text::decimal(
        (chip.flash.size as int / chip.flash.page_size as int) as nat,
    ) + " pages x "@ + text::decimal(chip.flash.page_size as nat) + " B)\n  Lock regions  "@
        + text::decimal(chip.flash.lock_regions as nat) + " x "@ + kb(chip.flash.lock_size as int)
        + " KB\n  SRAM          "@ + text::decimal(target::sram_size_kb(chip.cidr) as nat)
        + " KB at "@ + text::hex8(SRAM_BASE as nat) + "\n  Core          Cortex-M4, "@ + state
        + "\n  Link          "@ + options.transport.title() + " @ "@ + text::decimal(
        options.speed as nat,
    ) + " kHz via Atmel-ICE"@ + flash_note(chip) + "\n"@ + target::gpnvm_text(bits)
}

/// The note on a flash size that the chip identity gives otherwise.
pub open spec fn flash_note(chip: ChipInfo) -> Seq<char> {
    if target::flash_kb(chip.cidr) as int == chip.flash.size as int / 1024 {
        ""@
    } else {
        "\nnote: CHIPID reports "@ + text::decimal(target::flash_kb(chip.cidr) as nat)
            + " KB of flash, but EEFC reports "@ + kb(chip.flash.size as int) + " KB; using EEFC"@
    }
}

/// Shows the note on the flash size.
fn show_flash_note(chip: &ChipInfo) -> (note: String)
    ensures
        note@ == flash_note(*chip),
{
    let reported: u32 = chip.cidr_flash_kb();
    let found: u32 = chip.flash.size / 1024;
    if reported == found {
        "".to_owned()
    } else {
        cat5(
            "\nnote: CHIPID reports ",
            decimal_text(reported as u64).as_str(),
            " KB of flash, but EEFC reports ",
            decimal_text(found as u64).as_str(),
            " KB; using EEFC",
        )
    }
}

/// Shows the chip and the link.
fn show_info(chip: &ChipInfo, bits: Gpnvm, state: &str, options: &OpenOcdOptions) -> (shown: String)
    requires
        chip.flash.wf(),
    ensures
        shown@ == info_text(*chip, bits, state@, *options),
{
    let mut s = cat4(
        "SAM4E\n  Part          ",
        chip.name().as_str(),
        "\n  CHIPID        CIDR=",
        hex8_text(chip.cidr as u64).as_str(),
    );
    s.append(" EXID=");
    s.append(hex8_text(chip.exid as u64).as_str());
    s.append("\n  Flash         ");
    s.append(decimal_text((chip.flash.size / 1024) as u64).as_str());
    s.append(" KB, ");
    s.append(hex8_text(FLASH_BASE as u64).as_str());
    s.append("-");
    s.append(hex8_text((chip.flash_end() - 1) as u64).as_str());
    s.append(" (");
    s.append(decimal_text(chip.pages() as u64).as_str());
    s.append(" pages x ");
    s.append(decimal_text(chip.flash.page_size as u64).as_str());
    s.append(" B)\n  Lock regions  ");
    s.append(decimal_text(chip.flash.lock_regions as u64).as_str());
    s.append(" x ");
    s.append(decimal_text((chip.flash.lock_size / 1024) as u64).as_str());
    s.append(" KB\n  SRAM          ");
    s.append(decimal_text(chip.sram_kb() as u64).as_str());
    s.append(" KB at ");
    s.append(hex8_text(SRAM_BASE as u64).as_str());
    s.append("\n  Core          Cortex-M4, ");
    s.append(state);
    s.append("\n  Link          ");
    s.append(options.transport.label());
    s.append(" @ ");
    s.append(decimal_text(options.speed as u64).as_str());
    s.append(" kHz via Atmel-ICE");
    s.append(show_flash_note(chip).as_str());
    s.append("\n");
    s.append(print_gpnvm(bits).as_str());
    s
}

/// The chip and the link are shown.
#[verifier::opaque]
pub open spec fn info_told(t: Trail, entry: Entry, options: OpenOcdOptions) -> (
    Trail,
    Result<(), Halt>,
) {
    match chip::chip_read(t) {
        (u, Err(halt)) => (u, Err(halt)),
        (u, Ok(chip)) => match chip::gpnvm_read(u) {
            (v, Err(halt)) => (v, Err(halt)),
            (v, Ok(bits)) => then_restored(
                walk::ask_act(v, Request::Print(info_text(chip, bits, entry.state, options))),
                entry,
            ),
        },
    }
}

/// Shows the chip and the link.
fn tell_info(walk: &mut Walk, session: &mut Session, options: &OpenOcdOptions) -> (outcome: Result<
    (),
    Stop,
>)
    ensures
        (final(walk)@, walk::seen(outcome)) == info_told(old(walk)@, old(session)@, *options),
        final(session).resume_on_drop == (old(session).resume_on_drop && outcome is Err),
{
    reveal(info_told);
    let chip = ChipInfo::read(walk)?;
    let bits = read_gpnvm(walk)?;
    let shown = show_info(&chip, bits, session.entry_state(), options);
    walk.print(shown.as_str())?;
    session.restore_entry_state(walk)
}

/// The information command.
#[verifier::opaque]
pub open spec fn info(t: Trail, options: OpenOcdOptions) -> (Trail, Result<(), Halt>) {
    in_session(t, options, true, |u: Trail, entry: Entry| info_told(u, entry, options))
}

/// Shows chip, memory, GPNVM, core, and link information.
fn command_info(walk: &mut Walk, options: &OpenOcdOptions) -> (outcome: Result<(), Stop>)
    ensures
        (final(walk)@, walk::seen(outcome)) == info(old(walk)@, *options),
{
    reveal(info);
    let mut session = connect_read_only(walk, options)?;
    let result = tell_info(walk, &mut session, options);
    session.close(walk, result)
}

/// Where a part goes, in ten characters.
pub open spec fn location(addr: Option<u64>) -> Result<Seq<char>, Failure> {
    match addr {
        None => Ok("  in image"@),
        Some(addr) => match target::flash_address(addr as nat) {
            Err(failure) => Err(failure),
            Ok(address) => Ok(text::hex8(address as nat)),
        },
    }
}

/// Shows where a part goes.
fn show_location(addr: Option<u64>) -> (shown: AppResult<String>)
    ensures
        match location(addr) {
            Ok(text) => shown is Ok && shown->Ok_0@ == text,
            Err(failure) => shown is Err && shown->Err_0@ == failure,
        },
{
    match addr {
        None => Ok("  in image".to_owned()),
        Some(addr) => {
            let address: u32 = normalize_flash_addr(addr)?;
            Ok(hex8_text(address as u64))
        },
    }
}

/// A file of an image is listed.
#[verifier::opaque]
pub open spec fn part_listed(t: Trail, part: PartEntry) -> (Trail, Result<(), Halt>) {
    match location(part.addr) {
        Err(failure) => (t, Err(Halt::Fail(failure))),
        Ok(shown) => match walk::ask_flag(t, Request::IsFile(part.path)) {
            (u, Err(halt)) => (u, Err(halt)),
            (u, Ok(present)) => walk::ask_act(
                u,
                Request::Print(
                    "  "@ + shown + "  "@ + part.path + (if present {
                        ""@
                    } else {
                        " (missing)"@
                    }),
                ),
            ),
        },
    }
}

/// Lists a file of an image.
fn list_part(walk: &mut Walk, part: &ImagePart) -> (outcome: Result<(), Stop>)
    ensures
        (final(walk)@, walk::seen(outcome)) == part_listed(old(walk)@, part@),
{
    reveal(part_listed);
    let shown = lift(show_location(part.addr))?;
    let present = walk.flag(Op::IsFile(part.file.path.clone()))?;
    let line = cat5(
        "  ",
        shown.as_str(),
        "  ",
        part.file.path.as_str(),
        if present {
            ""
        } else {
            " (missing)"
        },
    );
    walk.print(line.as_str())
}

/// The first `n` files of an image are listed.
pub open spec fn parts_listed(t: Trail, parts: Seq<PartEntry>, n: nat) -> (Trail, Result<(), Halt>)
    decreases n,
{
    if n == 0 {
        (t, Ok(()))
    } else {
        match parts_listed(t, parts, (n - 1) as nat) {
            (u, Err(halt)) => (u, Err(halt)),
            (u, Ok(())) => part_listed(u, parts[n - 1]),
        }
    }
}

/// The first failure decides.
proof fn lemma_unlisted_part_stays(t: Trail, parts: Seq<PartEntry>, n: nat, m: nat)
    requires
        n <= m,
        parts_listed(t, parts, n).1 is Err,
    ensures
        parts_listed(t, parts, m) == parts_listed(t, parts, n),
    decreases m,
{
    if n < m {
        lemma_unlisted_part_stays(t, parts, n, (m - 1) as nat);
    }
}

/// The heading of an image.
pub open spec fn image_heading(image: ImageEntry) -> Seq<char> {
    "\n"@ + image.name + (match image.description {
        Some(description) => " - "@ + description,
        None => ""@,
    })
}

/// An image is listed.
#[verifier::opaque]
pub open spec fn image_listed(t: Trail, image: ImageEntry) -> (Trail, Result<(), Halt>) {
    match walk::ask_act(t, Request::Print(image_heading(image))) {
        (u, Err(halt)) => (u, Err(halt)),
        (u, Ok(())) => parts_listed(u, image.parts, image.parts.len()),
    }
}

/// Lists an image.
fn list_image(walk: &mut Walk, image: &Image) -> (outcome: Result<(), Stop>)
    ensures
        (final(walk)@, walk::seen(outcome)) == image_listed(old(walk)@, image@),
{
    reveal(image_listed);
    let tail = match &image.description {
        Some(description) => cat(" - ", description.as_str()),
        None => "".to_owned(),
    };
    walk.print(cat3("\n", image.name.as_str(), tail.as_str()).as_str())?;
    let ghost begin = walk@;
    let ghost all = image@.parts;
    let mut i: usize = 0;
    while i < image.parts.len()
        invariant
            i <= image.parts@.len(),
            all == image@.parts,
            image_listed(old(walk)@, image@) == parts_listed(begin, all, all.len()),
            parts_listed(begin, all, i as nat) == (walk@, Ok::<(), Halt>(())),
        decreases image.parts@.len() - i,
    {
        assert(all[i as int] == image.parts@[i as int]@);
        let outcome = list_part(walk, &image.parts[i]);
        proof {
            if outcome is Err {
                lemma_unlisted_part_stays(begin, all, (i + 1) as nat, all.len());
            }
        }
        outcome?;
        i += 1;
    }
    Ok(())
}

/// The first `n` images are listed.
pub open spec fn images_listed(t: Trail, images: Seq<ImageEntry>, n: nat) -> (
    Trail,
    Result<(), Halt>,
)
    decreases n,
{
    if n == 0 {
        (t, Ok(()))
    } else {
        match images_listed(t, images, (n - 1) as nat) {
            (u, Err(halt)) => (u, Err(halt)),
            (u, Ok(())) => image_listed(u, images[n - 1]),
        }
    }
}

/// The first failure decides.
proof fn lemma_unlisted_image_stays(t: Trail, images: Seq<ImageEntry>, n: nat, m: nat)
    requires
        n <= m,
        images_listed(t, images, n).1 is Err,
    ensures
        images_listed(t, images, m) == images_listed(t, images, n),
    decreases m,
{
    if n < m {
        lemma_unlisted_image_stays(t, images, n, (m - 1) as nat);
    }
}

/// Lists images.
fn list_images(walk: &mut Walk, images: &Vec<Image>) -> (outcome: Result<(), Stop>)
    ensures
        (final(walk)@, walk::seen(outcome)) == images_listed(
            old(walk)@,
            config::entries(images@),
            images@.len(),
        ),
{
    let ghost all = config::entries(images@);
    let mut i: usize = 0;
    while i < images.len()
        invariant
            i <= images@.len(),
            all == config::entries(images@),
            images_listed(old(walk)@, all, i as nat) == (walk@, Ok::<(), Halt>(())),
        decreases images@.len() - i,
    {
        assert(all[i as int] == images@[i as int]@);
        let outcome = list_image(walk, &images[i]);
        proof {
            if outcome is Err {
                lemma_unlisted_image_stays(old(walk)@, all, (i + 1) as nat, images@.len());
            }
        }
        outcome?;
        i += 1;
    }
    Ok(())
}

/// The command that lists named images.
#[verifier::opaque]
pub open spec fn images(t: Trail, explicit: Option<Seq<char>>) -> (Trail, Result<(), Halt>) {
    match config::loaded(t, explicit) {
        (u, Err(halt)) => (u, Err(halt)),
        (u, Ok(catalog)) => match walk::ask_act(
            u,
            Request::Print(
                "Config: "@ + (match catalog.path {
                    Some(path) => path,
                    None => "none"@,
                }),
            ),
        ) {
            (v, Err(halt)) => (v, Err(halt)),
            (v, Ok(())) => if catalog.images.len() == 0 {
                walk::ask_act(v, Request::Print("No images are defined."@))
            } else {
                images_listed(v, catalog.images, catalog.images.len())
            },
        },
    }
}

/// Lists named images.
fn command_images(walk: &mut Walk, explicit: &Option<String>) -> (outcome: Result<(), Stop>)
    ensures
        (final(walk)@, walk::seen(outcome)) == images(old(walk)@, text::maybe(*explicit)),
{
    reveal(images);
    let config = load_config(walk, explicit)?;
    let path = match &config.path {
        Some(path) => path.as_str(),
        None => "none",
    };
    walk.print(cat("Config: ", path).as_str())?;
    if config.images.len() == 0 {
        walk.print("No images are defined.")
    } else {
        list_images(walk, &config.images)
    }
}

/// The first `n` ranges are erased.
pub open spec fn ranges_erased(t: Trail, ranges: Seq<Range<u32>>, n: nat) -> (
    Trail,
    Result<(), Halt>,
)
    decreases n,
{
    if n == 0 {
        (t, Ok(()))
    } else {
        match ranges_erased(t, ranges, (n - 1) as nat) {
            (u, Err(halt)) => (u, Err(halt)),
            (u, Ok(())) => range_erased(u, ranges[n - 1]),
        }
    }
}

/// A range is erased.
#[verifier::opaque]
pub open spec fn range_erased(t: Trail, range: Range<u32>) -> (Trail, Result<(), Halt>) {
    match walk::ask_act(
        t,
        Request::Print(
            "Erasing "@ + text::hex8(range.start as nat) + "-"@ + text::hex8(
                (range.end - 1) as nat,
            ) + "..."@,
        ),
    ) {
        (u, Err(halt)) => (u, Err(halt)),
        (u, Ok(())) => match flash::flash_run(u, image::erase_command(range)) {
            (v, Err(halt)) => (v, Err(halt)),
            (v, Ok(_)) => (v, Ok(())),
        },
    }
}

/// Erases a range.
fn erase_range(walk: &mut Walk, range: &Range<u32>) -> (outcome: Result<(), Stop>)
    requires
        range.start < range.end,
    ensures
        (final(walk)@, walk::seen(outcome)) == range_erased(old(walk)@, *range),
{
    reveal(range_erased);
    let line = cat5(
        "Erasing ",
        hex8_text(range.start as u64).as_str(),
        "-",
        hex8_text((range.end - 1) as u64).as_str(),
        "...",
    );
    walk.print(line.as_str())?;
    let _ = run_flash(walk, erase_range_command(range).as_str())?;
    Ok(())
}

/// The first failure decides.
proof fn lemma_unerased_stays(t: Trail, ranges: Seq<Range<u32>>, n: nat, m: nat)
    requires
        n <= m,
        ranges_erased(t, ranges, n).1 is Err,
    ensures
        ranges_erased(t, ranges, m) == ranges_erased(t, ranges, n),
    decreases m,
{
    if n < m {
        lemma_unerased_stays(t, ranges, n, (m - 1) as nat);
    }
}

/// Erases ranges.
fn erase_ranges(walk: &mut Walk, ranges: &Vec<Range<u32>>) -> (outcome: Result<(), Stop>)
    requires
        image::hold_something(ranges@),
    ensures
        (final(walk)@, walk::seen(outcome)) == ranges_erased(old(walk)@, ranges@, ranges@.len()),
{
    let mut i: usize = 0;
    while i < ranges.len()
        invariant
            i <= ranges@.len(),
            image::hold_something(ranges@),
            ranges_erased(old(walk)@, ranges@, i as nat) == (walk@, Ok::<(), Halt>(())),
        decreases ranges@.len() - i,
    {
        let outcome = erase_range(walk, &ranges[i]);
        proof {
            if outcome is Err {
                lemma_unerased_stays(old(walk)@, ranges@, (i + 1) as nat, ranges@.len());
            }
        }
        outcome?;
        i += 1;
    }
    Ok(())
}

/// The first `n` parts are written into erased flash.
pub open spec fn parts_written(t: Trail, parts: Seq<Part>, n: nat) -> (Trail, Result<(), Halt>)
    decreases n,
{
    if n == 0 {
        (t, Ok(()))
    } else {
        match parts_written(t, parts, (n - 1) as nat) {
            (u, Err(halt)) => (u, Err(halt)),
            (u, Ok(())) => flash::part_written(u, parts[n - 1], false),
        }
    }
}

/// The first failure decides.
proof fn lemma_unwritten_stays(t: Trail, parts: Seq<Part>, n: nat, m: nat)
    requires
        n <= m,
        parts_written(t, parts, n).1 is Err,
    ensures
        parts_written(t, parts, m) == parts_written(t, parts, n),
    decreases m,
{
    if n < m {
        lemma_unwritten_stays(t, parts, n, (m - 1) as nat);
    }
}

/// Whether no part is left to be decoded.
pub open spec fn all_decoded(parts: Seq<FlashPart>) -> bool {
    forall|i: int| 0 <= i < parts.len() ==> (#[trigger] parts[i]).format != ImageFormat::IntelHex
}

/// Writes parts into erased flash.
fn write_parts(walk: &mut Walk, parts: &Vec<FlashPart>) -> (outcome: Result<(), Stop>)
    requires
        all_decoded(parts@),
    ensures
        (final(walk)@, walk::seen(outcome)) == parts_written(
            old(walk)@,
            image::parts_of(parts@),
            parts@.len(),
        ),
{
    let ghost all = image::parts_of(parts@);
    let mut i: usize = 0;
    while i < parts.len()
        invariant
            i <= parts@.len(),
            all == image::parts_of(parts@),
            all_decoded(parts@),
            parts_written(old(walk)@, all, i as nat) == (walk@, Ok::<(), Halt>(())),
        decreases parts@.len() - i,
    {
        assert(all[i as int] == parts@[i as int]@);
        let outcome = write_part(walk, &parts[i], false);
        proof {
            if outcome is Err {
                lemma_unwritten_stays(old(walk)@, all, (i + 1) as nat, parts@.len());
            }
        }
        outcome?;
        i += 1;
    }
    Ok(())
}

/// The first `n` parts are compared with flash.
pub open spec fn parts_verified(t: Trail, parts: Seq<Part>, n: nat) -> (Trail, Result<(), Halt>)
    decreases n,
{
    if n == 0 {
        (t, Ok(()))
    } else {
        match parts_verified(t, parts, (n - 1) as nat) {
            (u, Err(halt)) => (u, Err(halt)),
            (u, Ok(())) => flash::part_verified(u, parts[n - 1]),
        }
    }
}

/// The first failure decides.
proof fn lemma_unverified_stays(t: Trail, parts: Seq<Part>, n: nat, m: nat)
    requires
        n <= m,
        parts_verified(t, parts, n).1 is Err,
    ensures
        parts_verified(t, parts, m) == parts_verified(t, parts, n),
    decreases m,
{
    if n < m {
        lemma_unverified_stays(t, parts, n, (m - 1) as nat);
    }
}

/// Compares parts with flash.
fn verify_parts(walk: &mut Walk, parts: &Vec<FlashPart>) -> (outcome: Result<(), Stop>)
    requires
        all_decoded(parts@),
    ensures
        (final(walk)@, walk::seen(outcome)) == parts_verified(
            old(walk)@,
            image::parts_of(parts@),
            parts@.len(),
        ),
{
    let ghost all = image::parts_of(parts@);
    let mut i: usize = 0;
    while i < parts.len()
        invariant
            i <= parts@.len(),
            all == image::parts_of(parts@),
            all_decoded(parts@),
            parts_verified(old(walk)@, all, i as nat) == (walk@, Ok::<(), Halt>(())),
        decreases parts@.len() - i,
    {
        assert(all[i as int] == parts@[i as int]@);
        let outcome = verify_part(walk, &parts[i]);
        proof {
            if outcome is Err {
                lemma_unverified_stays(old(walk)@, all, (i + 1) as nat, parts@.len());
            }
        }
        outcome?;
        i += 1;
    }
    Ok(())
}

/// A plan is carried out: flash is erased, written and, if wanted, verified.
#[verifier::opaque]
pub open spec fn plan_done(t: Trail, plan: Plan, given: Seq<Part>, verify: bool) -> (
    Trail,
    Result<(), Halt>,
) {
    match plan {
        Plan::Single => match flash::part_written(t, given[0], true) {
            (u, Err(halt)) => (u, Err(halt)),
            (u, Ok(())) => if verify {
                flash::part_verified(u, given[0])
            } else {
                (u, Ok(()))
            },
        },
        Plan::Ranges { ranges, parts } => match ranges_erased(t, ranges, ranges.len()) {
            (u, Err(halt)) => (u, Err(halt)),
            (u, Ok(())) => match parts_written(u, parts, parts.len()) {
                (v, Err(halt)) => (v, Err(halt)),
                (v, Ok(())) => if verify {
                    parts_verified(v, parts, parts.len())
                } else {
                    (v, Ok(()))
                },
            },
        },
    }
}

/// Carries out a plan.
fn carry_out(walk: &mut Walk, plan: &FlashPlan, given: &Vec<FlashPart>, verify: bool) -> (outcome:
    Result<(), Stop>)
    requires
        *plan is Single ==> given@.len() == 1 && given@[0].format == ImageFormat::Bin,
        *plan matches FlashPlan::Ranges { ranges, parts } ==> image::hold_something(ranges@)
            && all_decoded(parts@),
    ensures
        (final(walk)@, walk::seen(outcome)) == plan_done(
            old(walk)@,
            plan@,
            image::parts_of(given@),
            verify,
        ),
{
    reveal(plan_done);
    match plan {
        FlashPlan::Single => {
            assert(image::parts_of(given@)[0] == given@[0]@);
            write_part(walk, &given[0], true)?;
            if verify {
                verify_part(walk, &given[0])
            } else {
                Ok(())
            }
        },
        FlashPlan::Ranges { ranges, parts } => {
            erase_ranges(walk, ranges)?;
            write_parts(walk, parts)?;
            if verify {
                verify_parts(walk, parts)
            } else {
                Ok(())
            }
        },
    }
}

/// The target is reset, and it runs.
#[verifier::opaque]
pub open spec fn reset_to_run(t: Trail, notice: Seq<char>) -> (Trail, Result<(), Halt>) {
    match session::run_of(t, "reset run"@) {
        (u, Err(halt)) => (u, Err(halt)),
        (u, Ok(_)) => walk::ask_act(u, Request::Print(notice)),
    }
}

/// Resets the target and lets it run.
fn reset_and_run(walk: &mut Walk, notice: &str) -> (outcome: Result<(), Stop>)
    ensures
        (final(walk)@, walk::seen(outcome)) == reset_to_run(old(walk)@, notice@),
{
    reveal(reset_to_run);
    let _ = run(walk, "reset run")?;
    walk.print(notice)
}

/// The address behind the last byte of flash.
pub open spec fn end_of_flash(chip: ChipInfo) -> u32 {
    (FLASH_BASE + chip.flash.size) as u32
}

/// Files are written: nothing is erased before the chip is known and the whole plan is made.
#[verifier::opaque]
pub open spec fn flash_done(t: Trail, parts: Seq<Part>, verify: bool, run_after: bool) -> (
    Trail,
    Result<(), Halt>,
) {
    match chip::chip_read(t) {
        (u, Err(halt)) => (u, Err(halt)),
        (u, Ok(chip)) => match flash::planned(u, parts, end_of_flash(chip)) {
            (v, Err(halt)) => (v, Err(halt)),
            (v, Ok(plan)) => match plan_done(v, plan, parts, verify) {
                (x, Err(halt)) => (x, Err(halt)),
                (x, Ok(())) => if run_after {
                    reset_to_run(x, "ok: reset, running"@)
                } else {
                    (x, Ok(()))
                },
            },
        },
    }
}

/// Writes files.
fn do_flash(walk: &mut Walk, parts: &Vec<FlashPart>, verify: bool, run_after: bool) -> (outcome:
    Result<(), Stop>)
    ensures
        (final(walk)@, walk::seen(outcome)) == flash_done(
            old(walk)@,
            image::parts_of(parts@),
            verify,
            run_after,
        ),
{
    reveal(flash_done);
    let chip = ChipInfo::read(walk)?;
    let plan = plan_flash(walk, parts, chip.flash_end())?;
    carry_out(walk, &plan, parts, verify)?;
    if run_after {
        reset_and_run(walk, "ok: reset, running")
    } else {
        Ok(())
    }
}

/// An address that is perhaps not given.
pub open spec fn given_address(addr: Option<Seq<char>>) -> Result<Option<u32>, Failure> {
    match addr {
        None => Ok(None),
        Some(addr) => match number::flash_address_of(addr) {
            Err(failure) => Err(failure),
            Ok(address) => Ok(Some(address)),
        },
    }
}

/// Reads an address that is perhaps not given.
fn parse_given_address(addr: &Option<String>) -> (address: AppResult<Option<u32>>)
    ensures
        error::agrees(address, given_address(text::maybe(*addr))),
{
    match addr {
        None => Ok(None),
        Some(addr) => {
            let address: u32 = parse_flash_addr(addr.as_str())?;
            Ok(Some(address))
        },
    }
}

/// The command that writes an image.
#[verifier::opaque]
pub open spec fn flash_image(
    t: Trail,
    options: OpenOcdOptions,
    explicit: Option<Seq<char>>,
    target: Seq<char>,
    addr: Option<Seq<char>>,
    verify: bool,
    run_after: bool,
) -> (Trail, Result<(), Halt>) {
    match config::loaded(t, explicit) {
        (u, Err(halt)) => (u, Err(halt)),
        (u, Ok(catalog)) => match given_address(addr) {
            Err(failure) => (u, Err(Halt::Fail(failure))),
            Ok(address) => match flash::prepared(u, target, address, catalog.images) {
                (v, Err(halt)) => (v, Err(halt)),
                (v, Ok(parts)) => in_session(
                    v,
                    options,
                    false,
                    |x: Trail, entry: Entry| flash_done(x, parts, verify, run_after),
                ),
            },
        },
    }
}

/// Programs a named image or an image file.
fn command_flash(
    walk: &mut Walk,
    options: &OpenOcdOptions,
    explicit: &Option<String>,
    target: &str,
    addr: &Option<String>,
    verify: bool,
    run_after: bool,
) -> (outcome: Result<(), Stop>)
    ensures
        (final(walk)@, walk::seen(outcome)) == flash_image(
            old(walk)@,
            *options,
            text::maybe(*explicit),
            target@,
            text::maybe(*addr),
            verify,
            run_after,
        ),
{
    reveal(flash_image);
    let config = load_config(walk, explicit)?;
    let address = lift(parse_given_address(addr))?;
    let parts = prepare_flash_parts(walk, target, address, &config)?;
    let session = connect(walk, options)?;
    let result = do_flash(walk, &parts, verify, run_after);
    session.close(walk, result)
}

/// The value of GPNVM bit 1 for a boot mode.
pub open spec fn boot_bit(mode: BootMode) -> u8 {
    match mode {
        BootMode::Flash => 1,
        BootMode::Rom => 0,
    }
}

/// The boot mode is selected, and it is read back.
#[verifier::opaque]
pub open spec fn boot_selected(t: Trail, mode: BootMode) -> (Trail, Result<(), Halt>) {
    match chip::gpnvm_read(t) {
        (u, Err(halt)) => (u, Err(halt)),
        (u, Ok(before)) => if before.boot_mode == boot_bit(mode) {
            walk::ask_act(
                u,
                Request::Print(
                    "ok: already booting from "@ + (match mode {
                        BootMode::Flash => "Flash"@,
                        BootMode::Rom => "ROM (SAM-BA)"@,
                    }),
                ),
            )
        } else {
            match gpnvm_changed(u, 1, boot_bit(mode)) {
                (v, Err(halt)) => (v, Err(halt)),
                (v, Ok(after)) => if after.boot_mode != boot_bit(mode) {
                    (v, Err(Halt::Fail(Failure::Runtime("GPNVM1 did not change"@))))
                } else {
                    walk::ask_act(
                        v,
                        Request::Print(
                            "ok: boot source -> "@ + (match mode {
                                BootMode::Flash => "Flash (application)"@,
                                BootMode::Rom => "ROM (SAM-BA bootloader)"@,
                            }),
                        ),
                    )
                },
            }
        },
    }
}

/// The command that changes a GPNVM bit.
pub open spec fn gpnvm_command(bit: u8, value: u8) -> Seq<char> {
    "at91sam4 gpnvm "@ + (if value == 1 {
        "set"@
    } else {
        "clear"@
    }) + " "@ + text::decimal(bit as nat)
}

/// A GPNVM bit is changed, and the bits are read back.
#[verifier::opaque]
pub open spec fn gpnvm_changed(t: Trail, bit: u8, value: u8) -> (Trail, Result<Gpnvm, Halt>) {
    match session::run_of(t, gpnvm_command(bit, value)) {
        (u, Err(halt)) => (u, Err(halt)),
        (u, Ok(_)) => match walk::ask_act(u, Request::Sleep(50)) {
            (v, Err(halt)) => (v, Err(halt)),
            (v, Ok(())) => chip::gpnvm_read(v),
        },
    }
}

/// Changes a GPNVM bit and reads the bits back.
fn change_gpnvm(walk: &mut Walk, bit: u8, value: u8) -> (after: Result<Gpnvm, Stop>)
    ensures
        (final(walk)@, walk::seen(after)) == gpnvm_changed(old(walk)@, bit, value),
{
    reveal(gpnvm_changed);
    let command = cat4(
        "at91sam4 gpnvm ",
        if value == 1 {
            "set"
        } else {
            "clear"
        },
        " ",
        decimal_text(bit as u64).as_str(),
    );
    let _ = run(walk, command.as_str())?;
    walk.act(Op::Sleep(50))?;
    read_gpnvm(walk)
}

/// Selects the boot mode.
fn select_boot(walk: &mut Walk, mode: BootMode) -> (outcome: Result<(), Stop>)
    ensures
        (final(walk)@, walk::seen(outcome)) == boot_selected(old(walk)@, mode),
{
    reveal(boot_selected);
    let wanted: u8 = match mode {
        BootMode::Flash => 1,
        BootMode::Rom => 0,
    };
    let before = read_gpnvm(walk)?;
    if before.boot_mode == wanted {
        let source = match mode {
            BootMode::Flash => "Flash",
            BootMode::Rom => "ROM (SAM-BA)",
        };
        return walk.print(cat("ok: already booting from ", source).as_str());
    }
    let after = change_gpnvm(walk, 1, wanted)?;
    if after.boot_mode != wanted {
        return Err(Stop::Fail(AppError::Runtime("GPNVM1 did not change".to_owned())));
    }
    let source = match mode {
        BootMode::Flash => "Flash (application)",
        BootMode::Rom => "ROM (SAM-BA bootloader)",
    };
    walk.print(cat("ok: boot source -> ", source).as_str())
}

/// The boot mode is selected on the supported chip, which is then reset or left as it was found.
#[verifier::opaque]
pub open spec fn boot_done(t: Trail, entry: Entry, mode: BootMode, reset: bool) -> (
    Trail,
    Result<(), Halt>,
) {
    match chip::chip_accepted(t) {
        (u, Err(halt)) => (u, Err(halt)),
        (u, Ok(())) => match boot_selected(u, mode) {
            (v, Err(halt)) => (v, Err(halt)),
            (v, Ok(())) => if reset {
                reset_to_run(v, "ok: device reset"@)
            } else {
                session::restored(v, entry.resume)
            },
        },
    }
}

/// Selects the boot mode on the supported chip.
fn do_boot(walk: &mut Walk, session: &mut Session, mode: BootMode, reset: bool) -> (outcome: Result<
    (),
    Stop,
>)
    requires
        reset ==> !old(session).resume_on_drop,
    ensures
        (final(walk)@, walk::seen(outcome)) == boot_done(old(walk)@, old(session)@, mode, reset),
        final(session).resume_on_drop == (old(session).resume_on_drop && outcome is Err),
{
    reveal(boot_done);
    require_sam4e8c(walk)?;
    select_boot(walk, mode)?;
    if reset {
        reset_and_run(walk, "ok: device reset")
    } else {
        session.restore_entry_state(walk)
    }
}

/// The command that selects where the chip starts.
#[verifier::opaque]
pub open spec fn boot(t: Trail, options: OpenOcdOptions, mode: BootMode, reset: bool) -> (
    Trail,
    Result<(), Halt>,
) {
    in_session(t, options, !reset, |u: Trail, entry: Entry| boot_done(u, entry, mode, reset))
}

/// Selects where the chip starts.
fn command_boot(walk: &mut Walk, options: &OpenOcdOptions, mode: BootMode, reset_now: bool) -> (
    outcome: Result<(), Stop>)
    ensures
        (final(walk)@, walk::seen(outcome)) == boot(old(walk)@, *options, mode, reset_now),
{
    reveal(boot);
    let mut session = if reset_now {
        connect(walk, options)?
    } else {
        connect_read_only(walk, options)?
    };
    let result = do_boot(walk, &mut session, mode, reset_now);
    session.close(walk, result)
}

/// The GPNVM bits are shown.
#[verifier::opaque]
pub open spec fn gpnvm_told(t: Trail, entry: Entry) -> (Trail, Result<(), Halt>) {
    match chip::chip_accepted(t) {
        (u, Err(halt)) => (u, Err(halt)),
        (u, Ok(())) => match chip::gpnvm_read(u) {
            (v, Err(halt)) => (v, Err(halt)),
            (v, Ok(bits)) => then_restored(
                walk::ask_act(v, Request::Print(target::gpnvm_text(bits))),
                entry,
            ),
        },
    }
}

/// Shows the GPNVM bits.
fn tell_gpnvm(walk: &mut Walk, session: &mut Session) -> (outcome: Result<(), Stop>)
    ensures
        (final(walk)@, walk::seen(outcome)) == gpnvm_told(old(walk)@, old(session)@),
        final(session).resume_on_drop == (old(session).resume_on_drop && outcome is Err),
{
    reveal(gpnvm_told);
    require_sam4e8c(walk)?;
    let bits = read_gpnvm(walk)?;
    walk.print(print_gpnvm(bits).as_str())?;
    session.restore_entry_state(walk)
}

/// Whether a change of a GPNVM bit is allowed.
pub open spec fn gpnvm_allowed(bit: u8, value: u8, force: bool) -> Result<(), Failure> {
    if bit > 1 {
        Err(
            Failure::Usage(
                "GPNVM bit "@ + text::decimal(bit as nat)
                    + " is not defined on the ATSAM4E8C (valid: 0, 1)"@,
            ),
        )
    } else if bit == 0 && value == 1 && !force {
        Err(
            Failure::Usage(
                "setting GPNVM bit 0 disables JTAG and SWD; the ERASE pin restores access and erases all flash; use --force to continue"@,
            ),
        )
    } else {
        Ok(())
    }
}

/// Rejects a change of a GPNVM bit that is not defined, or that needs `force`.
pub fn check_gpnvm_change(bit: u8, value: u8, force: bool) -> (result: AppResult<()>)
    ensures
        error::agrees(result, gpnvm_allowed(bit, value, force)),
{
    if bit > 1 {
        return Err(
            AppError::Usage(
                cat3(
                    "GPNVM bit ",
                    decimal_text(bit as u64).as_str(),
                    " is not defined on the ATSAM4E8C (valid: 0, 1)",
                ),
            ),
        );
    }
    if bit == 0 && value == 1 && !force {
        return Err(
            AppError::Usage(
                "setting GPNVM bit 0 disables JTAG and SWD; the ERASE pin restores access and erases all flash; use --force to continue".to_owned(),
            ),
        );
    }
    Ok(())
}

/// The notice of a changed GPNVM bit.
pub open spec fn gpnvm_notice(bit: u8, before: Gpnvm, after: Gpnvm) -> Seq<char> {
    "ok: GPNVM"@ + text::decimal(bit as nat) + " ("@ + (if bit == 0 {
        "security"@
    } else {
        "boot_mode"@
    }) + "): "@ + text::decimal(before.bit(bit) as nat) + " -> "@ + text::decimal(
        after.bit(bit) as nat,
    ) + "\n"@ + target::gpnvm_text(after) + (if bit == 1 {
        "\nThe change takes effect after reset. Run: jog reset"@
    } else {
        ""@
    })
}

/// Shows a changed GPNVM bit.
fn show_gpnvm_change(bit: u8, before: Gpnvm, after: Gpnvm) -> (notice: String)
    ensures
        notice@ == gpnvm_notice(bit, before, after),
{
    let mut notice = cat5(
        "ok: GPNVM",
        decimal_text(bit as u64).as_str(),
        " (",
        if bit == 0 {
            "security"
        } else {
            "boot_mode"
        },
        "): ",
    );
    notice.append(decimal_text(before.get(bit) as u64).as_str());
    notice.append(" -> ");
    notice.append(decimal_text(after.get(bit) as u64).as_str());
    notice.append("\n");
    notice.append(print_gpnvm(after).as_str());
    notice.append(
        if bit == 1 {
            "\nThe change takes effect after reset. Run: jog reset"
        } else {
            ""
        },
    );
    notice
}

/// A GPNVM bit is changed on the supported chip, and it is read back.
#[verifier::opaque]
pub open spec fn gpnvm_written(t: Trail, bit: u8, value: u8) -> (Trail, Result<(), Halt>) {
    match chip::chip_accepted(t) {
        (u, Err(halt)) => (u, Err(halt)),
        (u, Ok(())) => match chip::gpnvm_read(u) {
            (v, Err(halt)) => (v, Err(halt)),
            (v, Ok(before)) => match gpnvm_changed(v, bit, value) {
                (x, Err(halt)) => (x, Err(halt)),
                (x, Ok(after)) => if after.bit(bit) != value {
                    (
                        x,
                        Err(
                            Halt::Fail(
                                Failure::Runtime(
                                    "GPNVM"@ + text::decimal(bit as nat) + " is still "@
                                        + text::decimal(after.bit(bit) as nat) + ", expected "@
                                        + text::decimal(value as nat),
                                ),
                            ),
                        ),
                    )
                } else {
                    walk::ask_act(x, Request::Print(gpnvm_notice(bit, before, after)))
                },
            },
        },
    }
}

/// Changes a GPNVM bit on the supported chip.
fn do_gpnvm_write(walk: &mut Walk, bit: u8, value: u8) -> (outcome: Result<(), Stop>)
    ensures
        (final(walk)@, walk::seen(outcome)) == gpnvm_written(old(walk)@, bit, value),
{
    reveal(gpnvm_written);
    require_sam4e8c(walk)?;
    let before = read_gpnvm(walk)?;
    let after = change_gpnvm(walk, bit, value)?;
    if after.get(bit) != value {
        let mut message = cat5(
            "GPNVM",
            decimal_text(bit as u64).as_str(),
            " is still ",
            decimal_text(after.get(bit) as u64).as_str(),
            ", expected ",
        );
        message.append(decimal_text(value as u64).as_str());
        return Err(Stop::Fail(AppError::Runtime(message)));
    }
    walk.print(show_gpnvm_change(bit, before, after).as_str())
}

/// The command that changes a GPNVM bit.
#[verifier::opaque]
pub open spec fn gpnvm_change(t: Trail, options: OpenOcdOptions, bit: u8, value: u8, force: bool) -> (
    Trail,
    Result<(), Halt>,
) {
    match gpnvm_allowed(bit, value, force) {
        Err(failure) => (t, Err(Halt::Fail(failure))),
        Ok(()) => in_session(
            t,
            options,
            false,
            |u: Trail, entry: Entry| gpnvm_written(u, bit, value),
        ),
    }
}

/// Changes a GPNVM bit.
fn gpnvm_write(walk: &mut Walk, options: &OpenOcdOptions, bit: u8, value: u8, force: bool) -> (
    outcome: Result<(), Stop>)
    ensures
        (final(walk)@, walk::seen(outcome)) == gpnvm_change(
            old(walk)@,
            *options,
            bit,
            value,
            force,
        ),
{
    reveal(gpnvm_change);
    lift(check_gpnvm_change(bit, value, force))?;
    let session = connect(walk, options)?;
    let result = do_gpnvm_write(walk, bit, value);
    session.close(walk, result)
}

/// The command that shows or changes GPNVM bits.
#[verifier::opaque]
pub open spec fn gpnvm(t: Trail, options: OpenOcdOptions, command: GpnvmCommand) -> (
    Trail,
    Result<(), Halt>,
) {
    match command {
        GpnvmCommand::Show => in_session(
            t,
            options,
            true,
            |u: Trail, entry: Entry| gpnvm_told(u, entry),
        ),
        GpnvmCommand::SetBit { bit, force } => gpnvm_change(t, options, bit, 1, force),
        GpnvmCommand::ClearBit { bit } => gpnvm_change(t, options, bit, 0, false),
    }
}

/// Shows or changes GPNVM bits.
pub fn command_gpnvm(walk: &mut Walk, options: &OpenOcdOptions, command: &GpnvmCommand) -> (outcome:
    Result<(), Stop>)
    ensures
        (final(walk)@, walk::seen(outcome)) == gpnvm(old(walk)@, *options, *command),
{
    reveal(gpnvm);
    match command {
        GpnvmCommand::Show => {
            let mut session = connect_read_only(walk, options)?;
            let result = tell_gpnvm(walk, &mut session);
            session.close(walk, result)
        },
        GpnvmCommand::SetBit { bit, force } => gpnvm_write(walk, options, *bit, 1, *force),
        GpnvmCommand::ClearBit { bit } => gpnvm_write(walk, options, *bit, 0, false),
    }
}

/// Whether the user can see a question and answer it.
pub open spec fn can_confirm(input: bool, error_output: bool) -> Result<(), Failure> {
    if input && error_output {
        Ok(())
    } else {
        Err(
            Failure::Usage(
                "confirmation needs terminal input and error output. Use --yes for non-interactive use."@,
            ),
        )
    }
}

/// Accepts a terminal on which the user can see a question and answer it.
pub fn require_confirmation_terminals(input: bool, error_output: bool) -> (result: AppResult<()>)
    ensures
        error::agrees(result, can_confirm(input, error_output)),
{
    if input && error_output {
        Ok(())
    } else {
        Err(
            AppError::Usage(
                "confirmation needs terminal input and error output. Use --yes for non-interactive use.".to_owned(),
            ),
        )
    }
}

/// Whether an answer is yes.
pub open spec fn is_yes(answer: Seq<char>) -> bool {
    let word = text::lowered(text::trimmed(answer));
    word == "y"@ || word == "yes"@
}

/// Whether an answer is yes.
pub fn affirms(answer: &str) -> (result: bool)
    ensures
        result == is_yes(answer@),
{
    let word = to_lower(trim(answer).as_str());
    same(word.as_str(), "y") || same(word.as_str(), "yes")
}

/// The user is asked.
#[verifier::opaque]
pub open spec fn confirmed(t: Trail, prompt: Seq<char>) -> (Trail, Result<bool, Halt>) {
    match walk::ask_flag(t, Request::InputIsTerminal) {
        (u, Err(halt)) => (u, Err(halt)),
        (u, Ok(input)) => match walk::ask_flag(u, Request::ErrorIsTerminal) {
            (v, Err(halt)) => (v, Err(halt)),
            (v, Ok(error_output)) => match can_confirm(input, error_output) {
                Err(failure) => (v, Err(Halt::Fail(failure))),
                Ok(()) => match walk::ask_done(v, Request::Prompt(prompt + " [y/N] "@)) {
                    (x, Err(halt)) => (x, Err(halt)),
                    (x, Ok(Err(reason))) => (
                        x,
                        Err(Halt::Fail(Failure::Runtime("cannot write prompt: "@ + reason))),
                    ),
                    (x, Ok(Ok(()))) => match walk::ask_text(x, Request::ReadLine) {
                        (y, Err(halt)) => (y, Err(halt)),
                        (y, Ok(Err(reason))) => (
                            y,
                            Err(Halt::Fail(Failure::Runtime("cannot read answer: "@ + reason))),
                        ),
                        (y, Ok(Ok(answer))) => (y, Ok(is_yes(answer))),
                    },
                },
            },
        },
    }
}

/// Asks the user.
fn confirm(walk: &mut Walk, prompt: &str) -> (answer: Result<bool, Stop>)
    ensures
        (final(walk)@, walk::seen(answer)) == confirmed(old(walk)@, prompt@),
{
    reveal(confirmed);
    let input = walk.flag(Op::InputIsTerminal)?;
    let error_output = walk.flag(Op::ErrorIsTerminal)?;
    lift(require_confirmation_terminals(input, error_output))?;
    if let Err(reason) = walk.done(Op::Prompt(cat(prompt, " [y/N] ")))? {
        return Err(Stop::Fail(AppError::Runtime(cat("cannot write prompt: ", reason.as_str()))));
    }
    match walk.text(Op::ReadLine)? {
        Err(reason) => Err(
            Stop::Fail(AppError::Runtime(cat("cannot read answer: ", reason.as_str()))),
        ),
        Ok(answer) => Ok(affirms(answer.as_str())),
    }
}

/// The question before an erase, or the complaint about its range.
pub open spec fn erase_question(start: Option<u32>, end: Option<u32>) -> Result<
    Seq<char>,
    Failure,
> {
    match (start, end) {
        (None, None) => Ok("Erase all target flash?"@),
        (Some(a), None) => Ok(
            "Erase flash from "@ + text::hex8(a as nat) + " to the flash end?"@,
        ),
        (None, Some(b)) => Ok("Erase flash before "@ + text::hex8(b as nat) + "?"@),
        (Some(a), Some(b)) => if a < b {
            Ok(
                "Erase flash "@ + text::hex8(a as nat) + "-"@ + text::hex8((b - 1) as nat) + "?"@,
            )
        } else {
            Err(
                Failure::Usage(
                    "erase start "@ + text::hex8(a as nat) + " must be below end "@ + text::hex8(
                        b as nat,
                    ),
                ),
            )
        },
    }
}

/// Words the question before an erase.
pub fn erase_prompt(start: Option<u32>, end: Option<u32>) -> (question: AppResult<String>)
    ensures
        match erase_question(start, end) {
            Ok(text) => question is Ok && question->Ok_0@ == text,
            Err(failure) => question is Err && question->Err_0@ == failure,
        },
{
    match (start, end) {
        (None, None) => Ok("Erase all target flash?".to_owned()),
        (Some(a), None) => Ok(
            cat3("Erase flash from ", hex8_text(a as u64).as_str(), " to the flash end?"),
        ),
        (None, Some(b)) => Ok(cat3("Erase flash before ", hex8_text(b as u64).as_str(), "?")),
        (Some(a), Some(b)) => if a < b {
            Ok(
                cat5(
                    "Erase flash ",
                    hex8_text(a as u64).as_str(),
                    "-",
                    hex8_text((b - 1) as u64).as_str(),
                    "?",
                ),
            )
        } else {
            Err(
                AppError::Usage(
                    cat4(
                        "erase start ",
                        hex8_text(a as u64).as_str(),
                        " must be below end ",
                        hex8_text(b as u64).as_str(),
                    ),
                ),
            )
        },
    }
}

/// What is erased: the words for it, and the command.
pub struct Erasure {
    pub what: Seq<char>,
    pub command: Seq<char>,
}

/// What is erased on a chip, or the complaint about a range outside its flash.
pub open spec fn erasure(start: Option<u32>, end: Option<u32>, chip: ChipInfo) -> Result<
    Erasure,
    Failure,
> {
    let flash_end = end_of_flash(chip);
    let a = match start {
        Some(a) => a,
        None => FLASH_BASE,
    };
    let b = match end {
        Some(b) => b,
        None => flash_end,
    };
    if start is None && end is None {
        Ok(
            Erasure {
                what: "the entire "@ + kb(chip.flash.size as int) + " KB flash"@,
                command: "flash erase_sector 0 0 last"@,
            },
        )
    } else if FLASH_BASE <= a < b <= flash_end {
        Ok(
            Erasure {
                what: "flash "@ + text::hex8(a as nat) + "-"@ + text::hex8((b - 1) as nat) + " ("@
                    + kb(b - a) + " KB)"@,
                command: "flash erase_address "@ + text::hex(a as nat) + " "@ + text::hex(
                    (b - a) as nat,
                ),
            },
        )
    } else {
        Err(
            Failure::Usage(
                text::hex8(a as nat) + "-"@ + text::hex8(b as nat) + " is outside flash ("@
                    + text::hex8(FLASH_BASE as nat) + "-"@ + text::hex8(flash_end as nat) + ")"@,
            ),
        )
    }
}

/// Finds what is erased on a chip.
fn find_erasure(start: Option<u32>, end: Option<u32>, chip: &ChipInfo) -> (found: AppResult<
    (String, String),
>)
    requires
        chip.flash.wf(),
    ensures
        match erasure(start, end, *chip) {
            Ok(expected) => found is Ok && found->Ok_0.0@ == expected.what && found->Ok_0.1@
                == expected.command,
            Err(failure) => found is Err && found->Err_0@ == failure,
        },
{
    let flash_end: u32 = chip.flash_end();
    let a: u32 = match start {
        Some(a) => a,
        None => FLASH_BASE,
    };
    let b: u32 = match end {
        Some(b) => b,
        None => flash_end,
    };
    if start.is_none() && end.is_none() {
        let size = decimal_text((chip.flash.size / 1024) as u64);
        return Ok(
            (
                cat3("the entire ", size.as_str(), " KB flash"),
                "flash erase_sector 0 0 last".to_owned(),
            ),
        );
    }
    if !(FLASH_BASE <= a && a < b && b <= flash_end) {
        let mut message = cat5(
            hex8_text(a as u64).as_str(),
            "-",
            hex8_text(b as u64).as_str(),
            " is outside flash (",
            hex8_text(FLASH_BASE as u64).as_str(),
        );
        message.append("-");
        message.append(hex8_text(flash_end as u64).as_str());
        message.append(")");
        return Err(AppError::Usage(message));
    }
    let mut what = cat5(
        "flash ",
        hex8_text(a as u64).as_str(),
        "-",
        hex8_text((b - 1) as u64).as_str(),
        " (",
    );
    what.append(decimal_text(((b - a) / 1024) as u64).as_str());
    what.append(" KB)");
    let command = cat4(
        "flash erase_address ",
        hex_text(a as u64).as_str(),
        " ",
        hex_text((b - a) as u64).as_str(),
    );
    Ok((what, command))
}

/// Flash is erased on the supported chip.
#[verifier::opaque]
pub open spec fn erase_done(t: Trail, start: Option<u32>, end: Option<u32>) -> (
    Trail,
    Result<(), Halt>,
) {
    match chip::chip_read(t) {
        (u, Err(halt)) => (u, Err(halt)),
        (u, Ok(chip)) => match erasure(start, end, chip) {
            Err(failure) => (u, Err(Halt::Fail(failure))),
            Ok(erasure) => match walk::ask_act(
                u,
                Request::Print("Erasing "@ + erasure.what + "..."@),
            ) {
                (v, Err(halt)) => (v, Err(halt)),
                (v, Ok(())) => match flash::flash_run(v, erasure.command) {
                    (x, Err(halt)) => (x, Err(halt)),
                    (x, Ok(_)) => walk::ask_act(x, Request::Print("ok: erased "@ + erasure.what)),
                },
            },
        },
    }
}

/// Erases flash on the supported chip.
fn do_erase(walk: &mut Walk, start: Option<u32>, end: Option<u32>) -> (outcome: Result<(), Stop>)
    ensures
        (final(walk)@, walk::seen(outcome)) == erase_done(old(walk)@, start, end),
{
    reveal(erase_done);
    let chip = ChipInfo::read(walk)?;
    let (what, command) = lift(find_erasure(start, end, &chip))?;
    walk.print(cat3("Erasing ", what.as_str(), "...").as_str())?;
    let _ = run_flash(walk, command.as_str())?;
    walk.print(cat("ok: erased ", what.as_str()).as_str())
}

/// The command that erases flash.
#[verifier::opaque]
pub open spec fn erase(
    t: Trail,
    options: OpenOcdOptions,
    start: Option<Seq<char>>,
    end: Option<Seq<char>>,
    yes: bool,
) -> (Trail, Result<(), Halt>) {
    match given_address(start) {
        Err(failure) => (t, Err(Halt::Fail(failure))),
        Ok(a) => match given_address(end) {
            Err(failure) => (t, Err(Halt::Fail(failure))),
            Ok(b) => match erase_question(a, b) {
                Err(failure) => (t, Err(Halt::Fail(failure))),
                Ok(question) => {
                    let (u, answer) = if yes {
                        (t, Ok(true))
                    } else {
                        confirmed(t, question)
                    };
                    match answer {
                        Err(halt) => (u, Err(halt)),
                        Ok(true) => in_session(
                            u,
                            options,
                            false,
                            |v: Trail, entry: Entry| erase_done(v, a, b),
                        ),
                        Ok(false) => match walk::ask_act(
                            u,
                            Request::Print("Canceled. No flash was erased."@),
                        ) {
                            (v, Err(halt)) => (v, Err(halt)),
                            (v, Ok(())) => (v, Err(Halt::Fail(Failure::Exit(1)))),
                        },
                    }
                },
            },
        },
    }
}

/// Erases all flash or an address range.
fn command_erase(
    walk: &mut Walk,
    options: &OpenOcdOptions,
    start: &Option<String>,
    end: &Option<String>,
    yes: bool,
) -> (outcome: Result<(), Stop>)
    ensures
        (final(walk)@, walk::seen(outcome)) == erase(
            old(walk)@,
            *options,
            text::maybe(*start),
            text::maybe(*end),
            yes,
        ),
{
    reveal(erase);
    let a = lift(parse_given_address(start))?;
    let b = lift(parse_given_address(end))?;
    let question = lift(erase_prompt(a, b))?;
    if !yes && !confirm(walk, question.as_str())? {
        walk.print("Canceled. No flash was erased.")?;
        return Err(Stop::Fail(AppError::Exit(1)));
    }
    let session = connect(walk, options)?;
    let result = do_erase(walk, a, b);
    session.close(walk, result)
}

/// The addresses to be read, or what is wrong with them.
pub open spec fn read_range(addr: Seq<char>, length: Seq<char>) -> Result<(u32, usize), Failure> {
    match number::absolute_address(addr) {
        Err(failure) => Err(failure),
        Ok(address) => match number::positive_count(length, "length"@) {
            Err(failure) => Err(failure),
            Ok(count) => if address + count > 0x1_0000_0000 {
                Err(Failure::Usage("read range exceeds the 32-bit address space"@))
            } else {
                Ok((address, count))
            },
        },
    }
}

/// Finds the addresses to be read.
pub fn parse_read_range(addr: &str, length: &str) -> (range: AppResult<(u32, usize)>)
    ensures
        error::agrees(range, read_range(addr@, length@)),
{
    let address: u32 = parse_absolute_addr(addr)?;
    let count: usize = parse_positive_usize(length, "length")?;
    if count as u64 > 0x1_0000_0000 - address as u64 {
        return Err(AppError::Usage("read range exceeds the 32-bit address space".to_owned()));
    }
    Ok((address, count))
}

/// The path of the file to be written, if there is one.
#[verifier::opaque]
pub open spec fn output_found(t: Trail, out: Option<Seq<char>>) -> (
    Trail,
    Result<Option<Seq<char>>, Halt>,
) {
    match out {
        None => (t, Ok(None)),
        Some(path) => match walk::ask_path(t, Request::MakeAbsolute(path)) {
            (u, Err(halt)) => (u, Err(halt)),
            (u, Ok(Err(reason))) => (
                u,
                config::usage("cannot resolve "@ + path + ": "@ + reason),
            ),
            (u, Ok(Ok((shown, unicode)))) => match openocd::path_text(shown, unicode) {
                Err(failure) => (u, Err(Halt::Fail(failure))),
                Ok(path) => (u, Ok(Some(path))),
            },
        },
    }
}

/// Finds the path of the file to be written.
fn find_output(walk: &mut Walk, out: &Option<String>) -> (path: Result<Option<String>, Stop>)
    ensures
        final(walk)@ == output_found(old(walk)@, text::maybe(*out)).0,
        match output_found(old(walk)@, text::maybe(*out)).1 {
            Ok(expected) => path is Ok && text::maybe(path->Ok_0) == expected,
            Err(halt) => path is Err && path->Err_0@ == halt,
        },
{
    reveal(output_found);
    match out {
        None => Ok(None),
        Some(path) => match walk.path(Op::MakeAbsolute(path.clone()))? {
            Err(reason) => Err(
                Stop::Fail(
                    AppError::Usage(
                        cat4("cannot resolve ", path.as_str(), ": ", reason.as_str()),
                    ),
                ),
            ),
            Ok((shown, unicode)) => {
                let path = lift(path_string(shown.as_str(), unicode))?;
                Ok(Some(path))
            },
        },
    }
}

/// The command that writes memory to a file.
pub open spec fn dump_command(path: Seq<char>, address: u32, length: nat) -> Seq<char> {
    "dump_image "@ + tcl::literal(path) + " "@ + text::hex(address as nat) + " "@ + text::hex(
        length,
    )
}

/// Memory is written to a file.
#[verifier::opaque]
pub open spec fn memory_saved(t: Trail, address: u32, length: usize, path: Seq<char>) -> (
    Trail,
    Result<(), Halt>,
) {
    match walk::ask_act(
        t,
        Request::Print(
            "Reading "@ + text::decimal(length as nat) + " bytes from "@ + text::hex8(
                address as nat,
            ) + "..."@,
        ),
    ) {
        (u, Err(halt)) => (u, Err(halt)),
        (u, Ok(())) => match session::run_of(u, dump_command(path, address, length as nat)) {
            (v, Err(halt)) => (v, Err(halt)),
            (v, Ok(_)) => walk::ask_act(
                v,
                Request::Print(
                    "ok: wrote "@ + text::decimal(length as nat) + " bytes to "@ + path,
                ),
            ),
        },
    }
}

/// Writes memory to a file.
fn save_memory(walk: &mut Walk, address: u32, length: usize, path: &str) -> (outcome: Result<
    (),
    Stop,
>)
    ensures
        (final(walk)@, walk::seen(outcome)) == memory_saved(old(walk)@, address, length, path@),
{
    reveal(memory_saved);
    let count = decimal_text(length as u64);
    let line = cat5(
        "Reading ",
        count.as_str(),
        " bytes from ",
        hex8_text(address as u64).as_str(),
        "...",
    );
    walk.print(line.as_str())?;
    let mut command = cat4(
        "dump_image ",
        tcl_literal(path).as_str(),
        " ",
        hex_text(address as u64).as_str(),
    );
    command.append(" ");
    command.append(hex_text(length as u64).as_str());
    let _ = run(walk, command.as_str())?;
    walk.print(cat4("ok: wrote ", count.as_str(), " bytes to ", path).as_str())
}

/// Memory is shown.
#[verifier::opaque]
pub open spec fn memory_shown(t: Trail, address: u32, length: usize) -> (Trail, Result<(), Halt>) {
    match session::bytes_of(t, address, length as nat) {
        (u, Err(halt)) => (u, Err(halt)),
        (u, Ok(data)) => walk::ask_act(u, Request::Print(dump::dump_text(address as nat, data))),
    }
}

/// Shows memory.
fn show_memory(walk: &mut Walk, address: u32, length: usize) -> (outcome: Result<(), Stop>)
    requires
        address + length <= 0x1_0000_0000,
    ensures
        (final(walk)@, walk::seen(outcome)) == memory_shown(old(walk)@, address, length),
{
    reveal(memory_shown);
    let data = read8(walk, address, length)?;
    walk.print(hexdump(address, &data).as_str())
}

/// Memory of the supported chip is read, and the target is left as it was found.
#[verifier::opaque]
pub open spec fn read_done(
    t: Trail,
    entry: Entry,
    address: u32,
    length: usize,
    out: Option<Seq<char>>,
) -> (Trail, Result<(), Halt>) {
    match chip::chip_accepted(t) {
        (u, Err(halt)) => (u, Err(halt)),
        (u, Ok(())) => then_restored(
            match out {
                Some(path) => memory_saved(u, address, length, path),
                None => memory_shown(u, address, length),
            },
            entry,
        ),
    }
}

/// Reads memory of the supported chip.
fn do_read(
    walk: &mut Walk,
    session: &mut Session,
    address: u32,
    length: usize,
    out: &Option<String>,
) -> (outcome: Result<(), Stop>)
    requires
        address + length <= 0x1_0000_0000,
    ensures
        (final(walk)@, walk::seen(outcome)) == read_done(
            old(walk)@,
            old(session)@,
            address,
            length,
            text::maybe(*out),
        ),
        final(session).resume_on_drop == (old(session).resume_on_drop && outcome is Err),
{
    reveal(read_done);
    require_sam4e8c(walk)?;
    match out {
        Some(path) => save_memory(walk, address, length, path.as_str())?,
        None => show_memory(walk, address, length)?,
    }
    session.restore_entry_state(walk)
}

/// The command that reads memory.
#[verifier::opaque]
pub open spec fn read(
    t: Trail,
    options: OpenOcdOptions,
    addr: Seq<char>,
    length: Seq<char>,
    out: Option<Seq<char>>,
) -> (Trail, Result<(), Halt>) {
    match read_range(addr, length) {
        Err(failure) => (t, Err(Halt::Fail(failure))),
        Ok((address, count)) => match output_found(t, out) {
            (u, Err(halt)) => (u, Err(halt)),
            (u, Ok(path)) => in_session(
                u,
                options,
                true,
                |v: Trail, entry: Entry| read_done(v, entry, address, count, path),
            ),
        },
    }
}

/// Reads memory to the terminal or a file.
fn command_read(
    walk: &mut Walk,
    options: &OpenOcdOptions,
    addr: &str,
    length: &str,
    out: &Option<String>,
) -> (outcome: Result<(), Stop>)
    ensures
        (final(walk)@, walk::seen(outcome)) == read(
            old(walk)@,
            *options,
            addr@,
            length@,
            text::maybe(*out),
        ),
{
    reveal(read);
    let (address, count) = lift(parse_read_range(addr, length))?;
    let path = find_output(walk, out)?;
    let mut session = connect_read_only(walk, options)?;
    let result = do_read(walk, &mut session, address, count, &path);
    session.close(walk, result)
}

/// A command on the supported chip, and a line about it.
#[verifier::opaque]
pub open spec fn run_and_tell(t: Trail, tcl: Seq<char>, notice: Seq<char>) -> (
    Trail,
    Result<(), Halt>,
) {
    match chip::chip_accepted(t) {
        (u, Err(halt)) => (u, Err(halt)),
        (u, Ok(())) => match session::run_of(u, tcl) {
            (v, Err(halt)) => (v, Err(halt)),
            (v, Ok(_)) => walk::ask_act(v, Request::Print(notice)),
        },
    }
}

/// Runs a command on the supported chip.
fn do_run(walk: &mut Walk, tcl: &str, notice: &str) -> (outcome: Result<(), Stop>)
    ensures
        (final(walk)@, walk::seen(outcome)) == run_and_tell(old(walk)@, tcl@, notice@),
{
    reveal(run_and_tell);
    require_sam4e8c(walk)?;
    let _ = run(walk, tcl)?;
    walk.print(notice)
}

/// The command that resets the target.
#[verifier::opaque]
pub open spec fn reset(t: Trail, options: OpenOcdOptions, halt: bool) -> (Trail, Result<(), Halt>) {
    in_session(
        t,
        options,
        false,
        |u: Trail, entry: Entry|
            if halt {
                run_and_tell(u, "reset halt"@, "ok: reset (halted)"@)
            } else {
                run_and_tell(u, "reset run"@, "ok: reset (running)"@)
            },
    )
}

/// Resets the target.
fn command_reset(walk: &mut Walk, options: &OpenOcdOptions, halt: bool) -> (outcome: Result<
    (),
    Stop,
>)
    ensures
        (final(walk)@, walk::seen(outcome)) == reset(old(walk)@, *options, halt),
{
    reveal(reset);
    let session = connect(walk, options)?;
    let result = if halt {
        do_run(walk, "reset halt", "ok: reset (halted)")
    } else {
        do_run(walk, "reset run", "ok: reset (running)")
    };
    session.close(walk, result)
}

/// The state of the core is shown. The core was halted when the session began.
#[verifier::opaque]
pub open spec fn halt_told(t: Trail) -> (Trail, Result<(), Halt>) {
    match chip::chip_accepted(t) {
        (u, Err(halt)) => (u, Err(halt)),
        (u, Ok(())) => match session::value_of(u, CURRENT_STATE@) {
            (v, Err(halt)) => (v, Err(halt)),
            (v, Ok(state)) => walk::ask_act(v, Request::Print("ok: core "@ + state)),
        },
    }
}

/// Shows the state of the core.
fn tell_halt(walk: &mut Walk) -> (outcome: Result<(), Stop>)
    ensures
        (final(walk)@, walk::seen(outcome)) == halt_told(old(walk)@),
{
    reveal(halt_told);
    require_sam4e8c(walk)?;
    let state = value(walk, CURRENT_STATE)?;
    walk.print(cat("ok: core ", state.as_str()).as_str())
}

/// The command that halts the core.
#[verifier::opaque]
pub open spec fn halt(t: Trail, options: OpenOcdOptions) -> (Trail, Result<(), Halt>) {
    in_session(t, options, false, |u: Trail, entry: Entry| halt_told(u))
}

/// Halts the core.
fn command_halt(walk: &mut Walk, options: &OpenOcdOptions) -> (outcome: Result<(), Stop>)
    ensures
        (final(walk)@, walk::seen(outcome)) == halt(old(walk)@, *options),
{
    reveal(halt);
    let session = connect(walk, options)?;
    let result = tell_halt(walk);
    session.close(walk, result)
}

/// The command that resumes the core.
#[verifier::opaque]
pub open spec fn resume(t: Trail, options: OpenOcdOptions) -> (Trail, Result<(), Halt>) {
    in_session(
        t,
        options,
        false,
        |u: Trail, entry: Entry| run_and_tell(u, "resume"@, "ok: running"@),
    )
}

/// Resumes the core.
fn command_resume(walk: &mut Walk, options: &OpenOcdOptions) -> (outcome: Result<(), Stop>)
    ensures
        (final(walk)@, walk::seen(outcome)) == resume(old(walk)@, *options),
{
    reveal(resume);
    let session = connect(walk, options)?;
    let result = do_run(walk, "resume", "ok: running");
    session.close(walk, result)
}

/// The supported chip is found and left as it was found.
#[verifier::opaque]
pub open spec fn chip_found(t: Trail, entry: Entry) -> (Trail, Result<(), Halt>) {
    then_restored(chip::chip_accepted(t), entry)
}

/// Finds the supported chip and leaves it as it was found.
fn find_chip(walk: &mut Walk, session: &mut Session) -> (outcome: Result<(), Stop>)
    ensures
        (final(walk)@, walk::seen(outcome)) == chip_found(old(walk)@, old(session)@),
        final(session).resume_on_drop == (old(session).resume_on_drop && outcome is Err),
{
    reveal(chip_found);
    require_sam4e8c(walk)?;
    session.restore_entry_state(walk)
}

/// How a server that has ended with an exit code, or by a signal, is taken.
pub open spec fn server_end(code: Option<i32>) -> Result<(), Failure> {
    match code {
        None => Err(Failure::Runtime("OpenOCD ended because of a signal"@)),
        Some(code) => if code == 0 {
            Ok(())
        } else {
            Err(Failure::Exit(code as int))
        },
    }
}

/// Takes the end of a server.
pub fn check_server_end(code: Option<i32>) -> (result: AppResult<()>)
    ensures
        error::agrees(result, server_end(code)),
{
    match code {
        None => Err(AppError::Runtime("OpenOCD ended because of a signal".to_owned())),
        Some(code) => if code == 0 {
            Ok(())
        } else {
            Err(AppError::Exit(code))
        },
    }
}

/// What is printed before a GDB server starts.
pub open spec fn gdb_notice(port: u16) -> Seq<char> {
    "GDB server: localhost:"@ + text::decimal(port as nat)
        + "\narm-none-eabi-gdb -ex \"target extended-remote :"@ + text::decimal(port as nat)
        + "\" your.elf"@
}

/// A GDB server runs until it ends.
#[verifier::opaque]
pub open spec fn served(t: Trail, options: OpenOcdOptions, port: u16) -> (Trail, Result<(), Halt>) {
    match walk::ask_act(t, Request::Print(gdb_notice(port))) {
        (u, Err(halt)) => (u, Err(halt)),
        (u, Ok(())) => match walk::ask(
            u,
            Request::Serve(
                openocd::command_args(openocd::startup_commands(options, None, Some(port))),
            ),
        ) {
            (v, Err(halt)) => (v, Err(halt)),
            (v, Ok(Reply::Failed(reason))) => (
                v,
                Err(Halt::Fail(openocd::start_failure(options.executable@, reason@))),
            ),
            (v, Ok(Reply::Ended(code))) => (v, walk::lifted(server_end(code))),
            (v, Ok(_)) => (v, Err(Halt::Stray)),
        },
    }
}

/// Runs a GDB server until it ends.
fn serve(walk: &mut Walk, options: &OpenOcdOptions, port: u16) -> (outcome: Result<(), Stop>)
    ensures
        (final(walk)@, walk::seen(outcome)) == served(old(walk)@, *options, port),
{
    reveal(served);
    let shown = decimal_text(port as u64);
    let notice = cat5(
        "GDB server: localhost:",
        shown.as_str(),
        "\narm-none-eabi-gdb -ex \"target extended-remote :",
        shown.as_str(),
        "\" your.elf",
    );
    walk.print(notice.as_str())?;
    match walk.ask(Op::Serve(openocd_args(options, None, Some(port))))? {
        Reply::Failed(reason) => Err(
            Stop::Fail(openocd_start_error(options.executable.as_str(), reason.as_str())),
        ),
        Reply::Ended(code) => lift(check_server_end(*code)),
        _ => Err(Stop::Stray),
    }
}

/// The command that runs a GDB server.
#[verifier::opaque]
pub open spec fn gdb(t: Trail, options: OpenOcdOptions, port: u16) -> (Trail, Result<(), Halt>) {
    match in_session(t, options, true, |u: Trail, entry: Entry| chip_found(u, entry)) {
        (u, Err(halt)) => (u, Err(halt)),
        (u, Ok(())) => served(u, options, port),
    }
}

/// Runs a GDB server until it ends.
fn command_gdb(walk: &mut Walk, options: &OpenOcdOptions, port: u16) -> (outcome: Result<(), Stop>)
    ensures
        (final(walk)@, walk::seen(outcome)) == gdb(old(walk)@, *options, port),
{
    reveal(gdb);
    let mut session = connect_read_only(walk, options)?;
    let result = find_chip(walk, &mut session);
    session.close(walk, result)?;
    serve(walk, options, port)
}

/// A command is run without checks, and its output is shown.
#[verifier::opaque]
pub open spec fn raw_done(t: Trail, tcl: Seq<char>) -> (Trail, Result<(), Halt>) {
    match session::run_of(t, tcl) {
        (u, Err(halt)) => (u, Err(halt)),
        (u, Ok(output)) => if output.len() == 0 {
            (u, Ok(()))
        } else {
            walk::ask_act(u, Request::Print(output))
        },
    }
}

/// Runs a command without checks.
fn do_raw(walk: &mut Walk, tcl: &str) -> (outcome: Result<(), Stop>)
    ensures
        (final(walk)@, walk::seen(outcome)) == raw_done(old(walk)@, tcl@),
{
    reveal(raw_done);
    let output = run(walk, tcl)?;
    if output.as_str().is_empty() {
        Ok(())
    } else {
        walk.print(output.as_str())
    }
}

/// The command that runs OpenOCD Tcl without checks.
#[verifier::opaque]
pub open spec fn raw(t: Trail, options: OpenOcdOptions, command: Seq<Seq<char>>) -> (
    Trail,
    Result<(), Halt>,
) {
    match walk::ask_act(t, Request::Warn("warning: raw bypasses all jog safety checks"@)) {
        (u, Err(halt)) => (u, Err(halt)),
        (u, Ok(())) => in_session(
            u,
            options,
            false,
            |v: Trail, entry: Entry| raw_done(v, text::joined(command, " "@)),
        ),
    }
}

/// Runs OpenOCD Tcl without checks.
fn command_raw(walk: &mut Walk, options: &OpenOcdOptions, command: &Vec<String>) -> (outcome:
    Result<(), Stop>)
    ensures
        (final(walk)@, walk::seen(outcome)) == raw(old(walk)@, *options, text::views(command@)),
{
    reveal(raw);
    walk.act(Op::Warn("warning: raw bypasses all jog safety checks".to_owned()))?;
    let session = connect(walk, options)?;
    assert(command@.skip(0) =~= command@);
    let result = do_raw(walk, join_from(command, 0, " ").as_str());
    session.close(walk, result)
}

/// A new configuration file is created, and its path is printed.
#[verifier::opaque]
pub open spec fn config_started(t: Trail, explicit: bool) -> (Trail, Result<(), Halt>) {
    match config::config_initialized(t, explicit) {
        (u, Err(halt)) => (u, Err(halt)),
        (u, Ok(path)) => walk::ask_act(u, Request::Print("ok: created "@ + path)),
    }
}

/// Creates a new configuration file.
fn command_config_init(walk: &mut Walk, explicit: bool) -> (outcome: Result<(), Stop>)
    ensures
        (final(walk)@, walk::seen(outcome)) == config_started(old(walk)@, explicit),
{
    reveal(config_started);
    let path = init_config(walk, explicit)?;
    walk.print(cat("ok: created ", path.as_str()).as_str())
}

/// What the user gave is carried out.
#[verifier::opaque]
pub open spec fn executed(t: Trail, cli: Cli) -> (Trail, Result<(), Halt>) {
    match openocd::tcl_value(text::maybe(cli.options.serial), "serial number"@) {
        Err(failure) => (t, Err(Halt::Fail(failure))),
        Ok(()) => match cli.command {
            Commands::ConfigDirectory => config::directory_printed(t),
            Commands::ConfigInit => config_started(t, cli.config is Some),
            Commands::Info => info(t, cli.options),
            Commands::Images => images(t, text::maybe(cli.config)),
            Commands::Flash { target, addr, verify, run_after } => flash_image(
                t,
                cli.options,
                text::maybe(cli.config),
                target@,
                text::maybe(addr),
                verify,
                run_after,
            ),
            Commands::Boot { mode, reset } => boot(t, cli.options, mode, reset),
            Commands::Gpnvm(command) => gpnvm(t, cli.options, command),
            Commands::Erase { start, end, yes } => erase(
                t,
                cli.options,
                text::maybe(start),
                text::maybe(end),
                yes,
            ),
            Commands::Read { address, length, out } => read(
                t,
                cli.options,
                address@,
                length@,
                text::maybe(out),
            ),
            Commands::Reset { halt } => reset(t, cli.options, halt),
            Commands::Halt => halt(t, cli.options),
            Commands::Resume => resume(t, cli.options),
            Commands::Gdb { port } => gdb(t, cli.options, port),
            Commands::Raw { command } => raw(t, cli.options, text::views(command@)),
        },
    }
}

/// Carries out what the user gave, as far as the replies so far go.
///
/// The result is the end of the command, or what it asks for next. It is called again with the
/// reply to that behind those that it has had.
pub fn execute(cli: &Cli, replies: &[Reply]) -> (outcome: Result<(), Stop>)
    ensures
        walk::seen(outcome) == executed(walk::start(replies@), *cli).1,
{
    reveal(executed);
    let mut walk = Walk::new(replies);
    let serial = match &cli.options.serial {
        Some(serial) => Some(serial.as_str()),
        None => None,
    };
    lift(validate_tcl_value(serial, "serial number"))?;
    let options = &cli.options;
    match &cli.command {
        Commands::ConfigDirectory => print_config_directory(&mut walk),
        Commands::ConfigInit => command_config_init(&mut walk, cli.config.is_some()),
        Commands::Info => command_info(&mut walk, options),
        Commands::Images => command_images(&mut walk, &cli.config),
        Commands::Flash { target, addr, verify, run_after } => command_flash(
            &mut walk,
            options,
            &cli.config,
            target.as_str(),
            addr,
            *verify,
            *run_after,
        ),
        Commands::Boot { mode, reset } => command_boot(&mut walk, options, *mode, *reset),
        Commands::Gpnvm(command) => command_gpnvm(&mut walk, options, command),
        Commands::Erase { start, end, yes } => command_erase(
            &mut walk,
            options,
            start,
            end,
            *yes,
        ),
        Commands::Read { address, length, out } => command_read(
            &mut walk,
            options,
            address.as_str(),
            length.as_str(),
            out,
        ),
        Commands::Reset { halt } => command_reset(&mut walk, options, *halt),
        Commands::Halt => command_halt(&mut walk, options),
        Commands::Resume => command_resume(&mut walk, options),
        Commands::Gdb { port } => command_gdb(&mut walk, options, *port),
        Commands::Raw { command } => command_raw(&mut walk, options, command),
    }
}

} // verus!
