//! Reading the identity, the flash geometry and the GPNVM bits of the chip.
use crate::error::{AppError, Failure};
use crate::session;
use crate::session::{read32, write32};
use crate::target;
use crate::target::{
    gpnvm_bits, parse_descriptor, require_identity, ChipInfo, FlashDescriptor, Gpnvm,
};
use crate::text;
use crate::text::{cat, decimal_text};
use crate::walk;
use crate::walk::{lift, Halt, Op, Request, Stop, Trail, Walk};
use vstd::prelude::*;

verus! {

/// Where the chip identity and the extension identity stand.
pub const CHIPID_CIDR: u32 = 0x400e_0740;

/// The command register of the flash controller.
pub const EEFC_FCR: u32 = 0x400e_0a04;

/// The result register of the flash controller.
pub const EEFC_FRR: u32 = 0x400e_0a0c;

/// The command that gets the flash descriptor.
pub const GET_DESCRIPTOR: u32 = 0x5a00_0000;

/// The command that gets the GPNVM bits.
pub const GET_GPNVM: u32 = 0x5a00_000d;

/// The chip identity and the extension identity.
#[verifier::opaque]
pub open spec fn identity_read(t: Trail) -> (Trail, Result<(u32, u32), Halt>) {
    match session::memory_of(t, CHIPID_CIDR, 32, 2) {
        (u, Err(halt)) => (u, Err(halt)),
        (u, Ok(words)) => (u, Ok((words[0], words[1]))),
    }
}

/// Reads the chip identity and the extension identity.
fn read_identity(walk: &mut Walk) -> (ids: Result<(u32, u32), Stop>)
    ensures
        (final(walk)@, walk::seen(ids)) == identity_read(old(walk)@),
{
    reveal(identity_read);
    let words = read32(walk, CHIPID_CIDR, 2)?;
    Ok((words[0], words[1]))
}

/// The chip is the supported one.
#[verifier::opaque]
pub open spec fn chip_accepted(t: Trail) -> (Trail, Result<(), Halt>) {
    match identity_read(t) {
        (u, Err(halt)) => (u, Err(halt)),
        (u, Ok((_, exid))) => (u, walk::lifted(target::identity(exid))),
    }
}

/// Accepts the supported chip and no other.
pub fn require_sam4e8c(walk: &mut Walk) -> (outcome: Result<(), Stop>)
    ensures
        (final(walk)@, walk::seen(outcome)) == chip_accepted(old(walk)@),
{
    reveal(chip_accepted);
    let ids = read_identity(walk)?;
    lift(require_identity(ids.1))
}

/// The next word of the result register.
#[verifier::opaque]
pub open spec fn result_read(t: Trail) -> (Trail, Result<u32, Halt>) {
    match session::memory_of(t, EEFC_FRR, 32, 1) {
        (u, Err(halt)) => (u, Err(halt)),
        (u, Ok(words)) => (u, Ok(words[0])),
    }
}

/// Reads the next word of the result register.
fn read_frr(walk: &mut Walk) -> (word: Result<u32, Stop>)
    ensures
        (final(walk)@, walk::seen(word)) == result_read(old(walk)@),
{
    reveal(result_read);
    let words = read32(walk, EEFC_FRR, 1)?;
    Ok(words[0])
}

/// The next `n` words of the result register.
pub open spec fn results_read(t: Trail, n: nat) -> (Trail, Result<Seq<u32>, Halt>)
    decreases n,
{
    if n == 0 {
        (t, Ok(Seq::empty()))
    } else {
        match results_read(t, (n - 1) as nat) {
            (u, Err(halt)) => (u, Err(halt)),
            (u, Ok(words)) => match result_read(u) {
                (v, Err(halt)) => (v, Err(halt)),
                (v, Ok(word)) => (v, Ok(words.push(word))),
            },
        }
    }
}

/// The first failure decides.
proof fn lemma_failure_stays(t: Trail, n: nat, m: nat)
    requires
        n <= m,
        results_read(t, n).1 is Err,
    ensures
        results_read(t, m) == results_read(t, n),
    decreases m,
{
    if n < m {
        lemma_failure_stays(t, n, (m - 1) as nat);
    }
}

/// Reads the next `n` words of the result register.
fn read_results(walk: &mut Walk, n: u32) -> (words: Result<Vec<u32>, Stop>)
    ensures
        (final(walk)@, walk::seen(words)) == results_read(old(walk)@, n as nat),
        words matches Ok(words) ==> words@.len() == n,
{
    let mut words: Vec<u32> = Vec::new();
    let mut i: u32 = 0;
    while i < n
        invariant
            i <= n,
            words@.len() == i,
            results_read(old(walk)@, i as nat) == (walk@, Ok::<Seq<u32>, Halt>(words@)),
        decreases n - i,
    {
        match read_frr(walk) {
            Ok(word) => words.push(word),
            Err(stop) => {
                proof {
                    lemma_failure_stays(old(walk)@, (i + 1) as nat, n as nat);
                }
                return Err(stop);
            },
        }
        i = i + 1;
    }
    Ok(words)
}

/// The words of the flash descriptor: as many as its fourth word tells.
#[verifier::opaque]
pub open spec fn descriptor_read(t: Trail) -> (Trail, Result<Seq<u32>, Halt>) {
    match results_read(t, 4) {
        (u, Err(halt)) => (u, Err(halt)),
        (u, Ok(head)) => if 1 <= head[3] <= 8 {
            match results_read(u, (head[3] + 2) as nat) {
                (v, Err(halt)) => (v, Err(halt)),
                (v, Ok(tail)) => (v, Ok(head + tail)),
            }
        } else {
            (
                u,
                Err(
                    Halt::Fail(
                        Failure::Runtime(
                            "invalid EEFC plane count: "@ + text::decimal(head[3] as nat),
                        ),
                    ),
                ),
            )
        },
    }
}

/// Reads the words of the flash descriptor.
fn read_descriptor(walk: &mut Walk) -> (words: Result<Vec<u32>, Stop>)
    ensures
        (final(walk)@, walk::seen(words)) == descriptor_read(old(walk)@),
{
    reveal(descriptor_read);
    let mut words = read_results(walk, 4)?;
    let planes: u32 = words[3];
    if planes == 0 || planes > 8 {
        return Err(
            Stop::Fail(
                AppError::Runtime(
                    cat("invalid EEFC plane count: ", decimal_text(planes as u64).as_str()),
                ),
            ),
        );
    }
    let ghost head = words@;
    let mut tail = read_results(walk, planes + 2)?;
    let ghost rest = tail@;
    words.append(&mut tail);
    assert(words@ =~= head + rest);
    Ok(words)
}

/// A command is given to the flash controller, which gets some time for it.
#[verifier::opaque]
pub open spec fn commanded(t: Trail, command: u32) -> (Trail, Result<(), Halt>) {
    match session::written(t, EEFC_FCR, seq![command]) {
        (u, Err(halt)) => (u, Err(halt)),
        (u, Ok(())) => walk::ask_act(u, Request::Sleep(20)),
    }
}

/// Gives a command to the flash controller.
fn command_flash_controller(walk: &mut Walk, command: u32) -> (outcome: Result<(), Stop>)
    ensures
        (final(walk)@, walk::seen(outcome)) == commanded(old(walk)@, command),
{
    reveal(commanded);
    let mut words: Vec<u32> = Vec::new();
    words.push(command);
    assert(words@ =~= seq![command]);
    write32(walk, EEFC_FCR, words.as_slice())?;
    walk.act(Op::Sleep(20))
}

/// The chip with its flash geometry. Nothing is written before the identity is accepted.
#[verifier::opaque]
pub open spec fn chip_read(t: Trail) -> (Trail, Result<ChipInfo, Halt>) {
    match identity_read(t) {
        (u, Err(halt)) => (u, Err(halt)),
        (u, Ok((cidr, exid))) => match target::identity(exid) {
            Err(failure) => (u, Err(Halt::Fail(failure))),
            Ok(()) => match commanded(u, GET_DESCRIPTOR) {
                (v, Err(halt)) => (v, Err(halt)),
                (v, Ok(())) => match descriptor_read(v) {
                    (x, Err(halt)) => (x, Err(halt)),
                    (x, Ok(words)) => match target::descriptor(words) {
                        Err(failure) => (x, Err(Halt::Fail(failure))),
                        Ok(flash) => (x, Ok(ChipInfo { cidr, exid, flash })),
                    },
                },
            },
        },
    }
}

impl ChipInfo {
    /// Reads what is known of the chip.
    pub fn read(walk: &mut Walk) -> (chip: Result<ChipInfo, Stop>)
        ensures
            (final(walk)@, walk::seen(chip)) == chip_read(old(walk)@),
            chip matches Ok(chip) ==> chip.flash.wf(),
    {
        reveal(chip_read);
        let ids = read_identity(walk)?;
        lift(require_identity(ids.1))?;
        command_flash_controller(walk, GET_DESCRIPTOR)?;
        let words = read_descriptor(walk)?;
        let flash: FlashDescriptor = lift(parse_descriptor(words.as_slice()))?;
        Ok(ChipInfo { cidr: ids.0, exid: ids.1, flash })
    }
}

/// The GPNVM bits.
#[verifier::opaque]
pub open spec fn gpnvm_read(t: Trail) -> (Trail, Result<Gpnvm, Halt>) {
    match commanded(t, GET_GPNVM) {
        (u, Err(halt)) => (u, Err(halt)),
        (u, Ok(())) => match result_read(u) {
            (v, Err(halt)) => (v, Err(halt)),
            (v, Ok(word)) => (v, Ok(target::gpnvm_of(word))),
        },
    }
}

/// Reads the GPNVM bits.
pub fn read_gpnvm(walk: &mut Walk) -> (bits: Result<Gpnvm, Stop>)
    ensures
        (final(walk)@, walk::seen(bits)) == gpnvm_read(old(walk)@),
{
    reveal(gpnvm_read);
    command_flash_controller(walk, GET_GPNVM)?;
    let word: u32 = read_frr(walk)?;
    Ok(gpnvm_bits(word))
}

/// A chip that is not the supported one is rejected as soon as its identity is known: nothing more
/// is asked of it.
pub proof fn law_wrong_chip_is_left_alone(t: Trail)
    ensures
        identity_read(t) matches (u, Ok((_, exid))) ==> exid != target::SAM4E8C_EXID ==> {
            &&& chip_read(t) == (
                u,
                Err::<ChipInfo, Halt>(Halt::Fail(target::identity(exid)->Err_0)),
            )
            &&& chip_accepted(t) == (u, Err::<(), Halt>(Halt::Fail(target::identity(exid)->Err_0)))
        },
{
    reveal(chip_read);
    reveal(chip_accepted);
}

/// A chip that was read is the supported one, and its flash geometry is sound.
pub proof fn law_chip_is_sound(t: Trail)
    ensures
        chip_read(t).1 matches Ok(chip) ==> chip.exid == target::SAM4E8C_EXID && chip.flash.wf(),
{
    reveal(chip_read);
}

} // verus!
