//! Writing images: from what the user names to the parts and ranges that are written.
use crate::config;
use crate::config::{copy_of, Image, ImageEntry, LoadedConfig, PartEntry, RawImage, RawPart};
use crate::elf;
use crate::elf::elf_ranges;
use crate::error::{AppError, AppResult, Failure};
use crate::ihex;
use crate::ihex::Chunk;
use crate::image;
use crate::image::{
    arrange_ranges, image_format, part_label, require_flash_address, stage_error,
    validate_image_address, validate_part_range, verify_command, write_command, FlashPart,
    ImageFile, ImageFormat, Part,
};
use crate::number;
use crate::openocd;
use crate::openocd::path_string;
use crate::session;
use crate::session::run;
use crate::target::FLASH_BASE;
use crate::text;
use crate::text::{cat, cat3, cat4, cat5, indent, join_from, same};
use crate::walk;
use crate::walk::{lift, Halt, Op, Reply, Request, Stop, Trail, Walk};
use std::ops::Range;
use vstd::prelude::*;

verus! {

/// The image with a name.
pub open spec fn named(images: Seq<ImageEntry>, name: Seq<char>) -> Option<ImageEntry>
    decreases images.len(),
{
    if images.len() == 0 {
        None
    } else if images.last().name == name {
        Some(images.last())
    } else {
        named(images.drop_last(), name)
    }
}

/// Finds the image with a name.
fn find_image<'a>(images: &'a Vec<Image>, name: &str) -> (image: Option<&'a Image>)
    ensures
        match named(config::entries(images@), name@) {
            Some(entry) => image is Some && image->0@ == entry,
            None => image is None,
        },
{
    let ghost all = config::entries(images@);
    let mut i: usize = images.len();
    assert(all.take(i as int) =~= all);
    while i > 0
        invariant
            i <= images@.len(),
            all == config::entries(images@),
            named(all, name@) == named(all.take(i as int), name@),
        decreases i,
    {
        assert(all.take(i as int).last() == images@[i - 1]@);
        if same(images[i - 1].name.as_str(), name) {
            return Some(&images[i - 1]);
        }
        assert(all.take(i as int).drop_last() =~= all.take(i - 1));
        i -= 1;
    }
    None
}

/// The names of images.
pub open spec fn names_of(images: Seq<ImageEntry>) -> Seq<Seq<char>> {
    images.map_values(|image: ImageEntry| image.name)
}

/// What stands for the names of the images in a complaint.
pub open spec fn choices(images: Seq<ImageEntry>) -> Seq<char> {
    if images.len() == 0 {
        "none defined"@
    } else {
        text::joined(names_of(images), ", "@)
    }
}

/// Lists the names of the images.
fn list_choices(images: &Vec<Image>) -> (list: String)
    ensures
        list@ == choices(config::entries(images@)),
{
    if images.len() == 0 {
        return "none defined".to_owned();
    }
    let ghost all = names_of(config::entries(images@));
    let mut names: Vec<String> = Vec::new();
    let mut i: usize = 0;
    while i < images.len()
        invariant
            i <= images@.len(),
            all == names_of(config::entries(images@)),
            text::views(names@) == all.take(i as int),
        decreases images@.len() - i,
    {
        let ghost sofar = names@;
        names.push(images[i].name.clone());
        i += 1;
        proof {
            assert(all[i - 1] == images@[i - 1].name@);
            assert(text::views(names@) =~= text::views(sofar).push(all[i - 1]));
            assert(all.take(i as int) =~= all.take(i - 1).push(all[i - 1]));
        }
    }
    assert(all.take(i as int) =~= all);
    assert(names@.skip(0) =~= names@);
    join_from(&names, 0, ", ")
}

/// A file with its format and address, not yet resolved.
pub open spec fn unresolved(
    path: Seq<char>,
    extension: Option<Seq<char>>,
    addr: Option<u64>,
    context: Seq<char>,
) -> Result<Part, Failure> {
    match image::address_of(path, extension, addr, context) {
        Err(failure) => Err(failure),
        Ok(address) => Ok(
            Part {
                file: path,
                addr: address,
                format: image::format_of(path, extension)->Ok_0,
                staged: None,
            },
        ),
    }
}

/// Finds the format and the address of a file.
fn unresolved_part(file: &ImageFile, addr: Option<u64>, context: &str) -> (part: AppResult<
    FlashPart,
>)
    ensures
        match unresolved(file.path@, text::maybe(file.extension), addr, context@) {
            Ok(expected) => part is Ok && part->Ok_0@ == expected,
            Err(failure) => part is Err && part->Err_0@ == failure,
        },
{
    let address: u32 = validate_image_address(file, addr, context)?;
    let format = image_format(file)?;
    Ok(FlashPart { file: file.path.clone(), addr: address, format, staged: None })
}

/// The files of a named image, or the first fault.
pub open spec fn named_parts(parts: Seq<PartEntry>) -> Result<Seq<Part>, Failure>
    decreases parts.len(),
{
    if parts.len() == 0 {
        Ok(Seq::empty())
    } else {
        match named_parts(parts.drop_last()) {
            Err(failure) => Err(failure),
            Ok(found) => match unresolved(
                parts.last().path,
                parts.last().extension,
                parts.last().addr,
                "named image"@,
            ) {
                Err(failure) => Err(failure),
                Ok(part) => Ok(found.push(part)),
            },
        }
    }
}

/// The first fault decides.
proof fn lemma_named_fault_stays(parts: Seq<PartEntry>, n: int)
    requires
        0 <= n <= parts.len(),
        named_parts(parts.take(n)) is Err,
    ensures
        named_parts(parts) == named_parts(parts.take(n)),
    decreases parts.len() - n,
{
    if n == parts.len() {
        assert(parts.take(n) =~= parts);
    } else {
        assert(parts.take(n + 1).drop_last() =~= parts.take(n));
        lemma_named_fault_stays(parts, n + 1);
    }
}

/// Whether `result` is what `expected` says.
pub open spec fn agrees_parts(result: AppResult<Vec<FlashPart>>, expected: Result<Seq<Part>, Failure>) -> bool {
    match expected {
        Ok(parts) => result is Ok && image::parts_of(result->Ok_0@) == parts,
        Err(failure) => result is Err && result->Err_0@ == failure,
    }
}

/// Finds the files of a named image.
fn parts_of_image(image: &Image) -> (parts: AppResult<Vec<FlashPart>>)
    ensures
        agrees_parts(parts, named_parts(image@.parts)),
{
    let ghost all = image@.parts;
    let mut parts: Vec<FlashPart> = Vec::new();
    let mut i: usize = 0;
    assert(all.take(0) =~= Seq::<PartEntry>::empty());
    assert(image::parts_of(parts@) =~= Seq::<Part>::empty());
    while i < image.parts.len()
        invariant
            i <= image.parts@.len(),
            all == image@.parts,
            named_parts(all.take(i as int)) == Ok::<Seq<Part>, Failure>(image::parts_of(parts@)),
        decreases image.parts@.len() - i,
    {
        let ghost sofar = parts@;
        let part = &image.parts[i];
        proof {
            assert(all.take(i + 1).drop_last() =~= all.take(i as int));
            assert(all[i as int] == image.parts@[i as int]@);
        }
        match unresolved_part(&part.file, part.addr, "named image") {
            Ok(part) => {
                parts.push(part);
                assert(image::parts_of(parts@) =~= image::parts_of(sofar).push(part@));
            },
            Err(error) => {
                proof {
                    lemma_named_fault_stays(all, i + 1);
                }
                return Err(error);
            },
        }
        i += 1;
    }
    assert(all.take(i as int) =~= all);
    Ok(parts)
}

/// A file with its path resolved.
#[verifier::opaque]
pub open spec fn resolved(t: Trail, part: Part) -> (Trail, Result<Part, Halt>) {
    match walk::ask_flag(t, Request::IsFile(part.file)) {
        (u, Err(halt)) => (u, Err(halt)),
        (u, Ok(false)) => (u, config::usage("image file does not exist: "@ + part.file)),
        (u, Ok(true)) => match walk::ask_path(u, Request::Resolve(part.file)) {
            (v, Err(halt)) => (v, Err(halt)),
            (v, Ok(Err(reason))) => (
                v,
                config::usage("cannot resolve "@ + part.file + ": "@ + reason),
            ),
            (v, Ok(Ok((path, unicode)))) => match openocd::path_text(path, unicode) {
                Err(failure) => (v, Err(Halt::Fail(failure))),
                Ok(path) => (
                    v,
                    Ok(
                        Part {
                            file: path,
                            addr: part.addr,
                            format: part.format,
                            staged: part.staged,
                        },
                    ),
                ),
            },
        },
    }
}

/// Resolves the path of a file.
fn resolve_part(walk: &mut Walk, part: &FlashPart) -> (resolved_part: Result<FlashPart, Stop>)
    ensures
        (final(walk)@, walk::seen(resolved_part)) == resolved(old(walk)@, part@),
{
    reveal(resolved);
    if !walk.flag(Op::IsFile(part.file.clone()))? {
        return Err(
            Stop::Fail(AppError::Usage(cat("image file does not exist: ", part.file.as_str()))),
        );
    }
    match walk.path(Op::Resolve(part.file.clone()))? {
        Err(reason) => Err(
            Stop::Fail(
                AppError::Usage(
                    cat4("cannot resolve ", part.file.as_str(), ": ", reason.as_str()),
                ),
            ),
        ),
        Ok((path, unicode)) => {
            let file = lift(path_string(path.as_str(), unicode))?;
            Ok(
                FlashPart {
                    file,
                    addr: part.addr,
                    format: part.format,
                    staged: copy_of(&part.staged),
                },
            )
        },
    }
}

/// The first `n` files with their paths resolved.
pub open spec fn all_resolved(t: Trail, parts: Seq<Part>, n: nat) -> (Trail, Result<Seq<Part>, Halt>)
    decreases n,
{
    if n == 0 {
        (t, Ok(Seq::empty()))
    } else {
        match all_resolved(t, parts, (n - 1) as nat) {
            (u, Err(halt)) => (u, Err(halt)),
            (u, Ok(found)) => match resolved(u, parts[n - 1]) {
                (v, Err(halt)) => (v, Err(halt)),
                (v, Ok(part)) => (v, Ok(found.push(part))),
            },
        }
    }
}

/// The first failure decides.
proof fn lemma_unresolved_stays(t: Trail, parts: Seq<Part>, n: nat, m: nat)
    requires
        n <= m,
        all_resolved(t, parts, n).1 is Err,
    ensures
        all_resolved(t, parts, m) == all_resolved(t, parts, n),
    decreases m,
{
    if n < m {
        lemma_unresolved_stays(t, parts, n, (m - 1) as nat);
    }
}

/// What a result with parts says.
pub open spec fn seen_parts(result: Result<Vec<FlashPart>, Stop>) -> Result<Seq<Part>, Halt> {
    match result {
        Ok(parts) => Ok(image::parts_of(parts@)),
        Err(stop) => Err(stop@),
    }
}

/// Resolves the paths of files.
fn resolve_parts(walk: &mut Walk, parts: &Vec<FlashPart>) -> (resolved_parts: Result<
    Vec<FlashPart>,
    Stop,
>)
    ensures
        (final(walk)@, seen_parts(resolved_parts)) == all_resolved(
            old(walk)@,
            image::parts_of(parts@),
            parts@.len(),
        ),
{
    let ghost all = image::parts_of(parts@);
    let mut found: Vec<FlashPart> = Vec::new();
    let mut i: usize = 0;
    assert(image::parts_of(found@) =~= Seq::<Part>::empty());
    while i < parts.len()
        invariant
            i <= parts@.len(),
            all == image::parts_of(parts@),
            all_resolved(old(walk)@, all, i as nat) == (
                walk@,
                Ok::<Seq<Part>, Halt>(image::parts_of(found@)),
            ),
        decreases parts@.len() - i,
    {
        let ghost sofar = found@;
        assert(all[i as int] == parts@[i as int]@);
        match resolve_part(walk, &parts[i]) {
            Ok(part) => {
                found.push(part);
                assert(image::parts_of(found@) =~= image::parts_of(sofar).push(part@));
            },
            Err(stop) => {
                proof {
                    lemma_unresolved_stays(old(walk)@, all, (i + 1) as nat, parts@.len());
                }
                return Err(stop);
            },
        }
        i += 1;
    }
    Ok(found)
}

/// An address as the address of a file takes it.
pub open spec fn widened(addr: Option<u32>) -> Option<u64> {
    match addr {
        Some(addr) => Some(addr as u64),
        None => None,
    }
}

/// The files that the user means, with formats and addresses: those of a named image, or one file.
#[verifier::opaque]
pub open spec fn chosen(t: Trail, target: Seq<char>, addr: Option<u32>, images: Seq<ImageEntry>) -> (
    Trail,
    Result<Seq<Part>, Halt>,
) {
    match named(images, target) {
        Some(image) => if addr is Some {
            (
                t,
                config::usage(
                    "--addr does not apply to a named image; edit jog.toml instead"@,
                ),
            )
        } else {
            (t, walk::lifted(named_parts(image.parts)))
        },
        None => match walk::ask(t, Request::Examine(target)) {
            (u, Err(halt)) => (u, Err(halt)),
            (u, Ok(Reply::File(false, _))) => (
                u,
                config::usage(
                    "'"@ + target + "' is not an existing file or named image ("@ + choices(images)
                        + ")"@,
                ),
            ),
            (u, Ok(Reply::File(true, extension))) => match unresolved(
                target,
                text::maybe(extension),
                widened(addr),
                "image file"@,
            ) {
                Err(failure) => (u, Err(Halt::Fail(failure))),
                Ok(part) => (u, Ok(seq![part])),
            },
            (u, Ok(_)) => (u, Err(Halt::Stray)),
        },
    }
}

/// Finds the files that the user means.
fn choose_parts(walk: &mut Walk, target: &str, addr: Option<u32>, config: &LoadedConfig) -> (parts:
    Result<Vec<FlashPart>, Stop>)
    ensures
        (final(walk)@, seen_parts(parts)) == chosen(old(walk)@, target@, addr, config@.images),
{
    reveal(chosen);
    match find_image(&config.images, target) {
        Some(image) => {
            if addr.is_some() {
                return Err(
                    Stop::Fail(
                        AppError::Usage(
                            "--addr does not apply to a named image; edit jog.toml instead".to_owned(),
                        ),
                    ),
                );
            }
            lift(parts_of_image(image))
        },
        None => match walk.ask(Op::Examine(target.to_owned()))? {
            Reply::File(false, _) => {
                let list = list_choices(&config.images);
                Err(
                    Stop::Fail(
                        AppError::Usage(
                            cat5(
                                "'",
                                target,
                                "' is not an existing file or named image (",
                                list.as_str(),
                                ")",
                            ),
                        ),
                    ),
                )
            },
            Reply::File(true, extension) => {
                let file = ImageFile { path: target.to_owned(), extension: copy_of(extension) };
                let wide: Option<u64> = match addr {
                    Some(addr) => Some(addr as u64),
                    None => None,
                };
                let part = lift(unresolved_part(&file, wide, "image file"))?;
                let mut parts: Vec<FlashPart> = Vec::new();
                parts.push(part);
                assert(image::parts_of(parts@) =~= seq![part@]);
                Ok(parts)
            },
            _ => Err(Stop::Stray),
        },
    }
}

/// The files that the user means, ready to be planned.
#[verifier::opaque]
pub open spec fn prepared(
    t: Trail,
    target: Seq<char>,
    addr: Option<u32>,
    images: Seq<ImageEntry>,
) -> (Trail, Result<Seq<Part>, Halt>) {
    match chosen(t, target, addr, images) {
        (u, Err(halt)) => (u, Err(halt)),
        (u, Ok(parts)) => all_resolved(u, parts, parts.len()),
    }
}

/// Finds the files that the user means and resolves their paths.
pub fn prepare_flash_parts(
    walk: &mut Walk,
    target: &str,
    addr: Option<u32>,
    config: &LoadedConfig,
) -> (parts: Result<Vec<FlashPart>, Stop>)
    ensures
        (final(walk)@, seen_parts(parts)) == prepared(old(walk)@, target@, addr, config@.images),
{
    reveal(prepared);
    let parts = choose_parts(walk, target, addr, config)?;
    resolve_parts(walk, &parts)
}

/// What planning has found so far: the flash to be filled, and the parts to be written.
pub struct Work {
    pub ranges: Seq<Range<u32>>,
    pub parts: Seq<Part>,
}

/// The flash that a raw file fills.
#[verifier::opaque]
pub open spec fn bin_planned(t: Trail, part: Part, flash_end: u32) -> (
    Trail,
    Result<Range<u32>, Halt>,
) {
    match image::address_in_flash(part.addr, flash_end) {
        Err(failure) => (t, Err(Halt::Fail(failure))),
        Ok(()) => match walk::ask_number(t, Request::FileSize(part.file)) {
            (u, Err(halt)) => (u, Err(halt)),
            (u, Ok(Err(reason))) => (
                u,
                config::usage("cannot read "@ + part.file + ": "@ + reason),
            ),
            (u, Ok(Ok(size))) => (
                u,
                walk::lifted(image::bin_range(part.file, part.addr, size, flash_end)),
            ),
        },
    }
}

/// What a result with a range says.
pub open spec fn seen_range(result: Result<Range<u32>, Stop>) -> Result<Range<u32>, Halt> {
    match result {
        Ok(range) => Ok(range),
        Err(stop) => Err(stop@),
    }
}

/// Finds the flash that a raw file fills.
fn plan_bin(walk: &mut Walk, part: &FlashPart, flash_end: u32) -> (range: Result<Range<u32>, Stop>)
    ensures
        (final(walk)@, seen_range(range)) == bin_planned(old(walk)@, part@, flash_end),
        range matches Ok(range) ==> FLASH_BASE <= range.start < range.end <= flash_end,
{
    reveal(bin_planned);
    lift(require_flash_address(part.addr, flash_end))?;
    match walk.number(Op::FileSize(part.file.clone()))? {
        Err(reason) => Err(
            Stop::Fail(
                AppError::Usage(cat4("cannot read ", part.file.as_str(), ": ", reason.as_str())),
            ),
        ),
        Ok(size) => lift(validate_part_range(part, size, flash_end)),
    }
}

/// The contents of a file.
#[verifier::opaque]
pub open spec fn contents(t: Trail, file: Seq<char>) -> (Trail, Result<Seq<u8>, Halt>) {
    match walk::ask_bytes(t, Request::ReadFile(file)) {
        (u, Err(halt)) => (u, Err(halt)),
        (u, Ok(Err(reason))) => (u, config::usage("cannot read "@ + file + ": "@ + reason)),
        (u, Ok(Ok(data))) => (u, Ok(data)),
    }
}

/// Reads a file.
fn read_file<'a>(walk: &mut Walk<'a>, file: &str) -> (data: Result<&'a Vec<u8>, Stop>)
    ensures
        (final(walk)@, walk::seen(data)) == contents(old(walk)@, file@),
{
    reveal(contents);
    match walk.bytes(Op::ReadFile(file.to_owned()))? {
        Err(reason) => Err(
            Stop::Fail(AppError::Usage(cat4("cannot read ", file, ": ", reason.as_str()))),
        ),
        Ok(data) => Ok(data),
    }
}

/// The flash that an ELF file fills.
#[verifier::opaque]
pub open spec fn elf_planned(t: Trail, file: Seq<char>, flash_end: u32) -> (
    Trail,
    Result<Seq<Range<u32>>, Halt>,
) {
    match contents(t, file) {
        (u, Err(halt)) => (u, Err(halt)),
        (u, Ok(data)) => match elf::elf_image(data, flash_end) {
            Err(fault) => (u, config::usage("invalid ELF "@ + file + ": "@ + fault)),
            Ok(ranges) => (u, Ok(ranges)),
        },
    }
}

/// Finds the flash that an ELF file fills.
fn plan_elf(walk: &mut Walk, file: &str, flash_end: u32) -> (ranges: Result<Vec<Range<u32>>, Stop>)
    ensures
        (final(walk)@, walk::seen(ranges)) == elf_planned(old(walk)@, file@, flash_end),
        ranges matches Ok(ranges) ==> elf::lie_in_flash(ranges@, flash_end),
{
    reveal(elf_planned);
    let data = read_file(walk, file)?;
    proof {
        elf::law_load_ranges_lie_in_flash(data@, flash_end);
    }
    match elf_ranges(data.as_slice(), flash_end) {
        Err(fault) => Err(
            Stop::Fail(AppError::Usage(cat4("invalid ELF ", file, ": ", fault.as_str()))),
        ),
        Ok(ranges) => Ok(ranges),
    }
}

/// Decoded bytes in a file of their own: the original file, once planned, does not matter any more.
#[verifier::opaque]
pub open spec fn staged(t: Trail, bytes: Seq<u8>) -> (Trail, Result<Seq<char>, Halt>) {
    match walk::ask_path(t, Request::Stage(bytes)) {
        (u, Err(halt)) => (u, Err(halt)),
        (u, Ok(Err(reason))) => (u, Err(Halt::Fail(image::stage_failure(reason)))),
        (u, Ok(Ok((path, unicode)))) => (u, walk::lifted(openocd::path_text(path, unicode))),
    }
}

/// Puts bytes in a file of their own.
fn stage(walk: &mut Walk, bytes: &Vec<u8>) -> (path: Result<String, Stop>)
    ensures
        (final(walk)@, walk::seen(path)) == staged(old(walk)@, bytes@),
{
    reveal(staged);
    let mut copy: Vec<u8> = Vec::new();
    copy.extend_from_slice(bytes.as_slice());
    assert(copy@ =~= bytes@);
    match walk.path(Op::Stage(copy))? {
        Err(reason) => Err(Stop::Fail(stage_error(reason.as_str()))),
        Ok((path, unicode)) => lift(path_string(path.as_str(), unicode)),
    }
}

/// The range of a chunk.
pub open spec fn chunk_range(chunk: ihex::Piece) -> Range<u32> {
    Range { start: chunk.address as u32, end: chunk.end() as u32 }
}

/// The first `n` chunks of an Intel HEX file, each staged as a raw part.
pub open spec fn chunks_staged(t: Trail, file: Seq<char>, chunks: Seq<ihex::Piece>, n: nat) -> (
    Trail,
    Result<Work, Halt>,
)
    decreases n,
{
    if n == 0 {
        (t, Ok(Work { ranges: Seq::empty(), parts: Seq::empty() }))
    } else {
        match chunks_staged(t, file, chunks, (n - 1) as nat) {
            (u, Err(halt)) => (u, Err(halt)),
            (u, Ok(work)) => match staged(u, chunks[n - 1].data) {
                (v, Err(halt)) => (v, Err(halt)),
                (v, Ok(path)) => (
                    v,
                    Ok(
                        Work {
                            ranges: work.ranges.push(chunk_range(chunks[n - 1])),
                            parts: work.parts.push(
                                Part {
                                    file,
                                    addr: chunks[n - 1].address as u32,
                                    format: ImageFormat::Bin,
                                    staged: Some(path),
                                },
                            ),
                        },
                    ),
                ),
            },
        }
    }
}

/// The first failure decides.
proof fn lemma_unstaged_stays(t: Trail, file: Seq<char>, chunks: Seq<ihex::Piece>, n: nat, m: nat)
    requires
        n <= m,
        chunks_staged(t, file, chunks, n).1 is Err,
    ensures
        chunks_staged(t, file, chunks, m) == chunks_staged(t, file, chunks, n),
    decreases m,
{
    if n < m {
        lemma_unstaged_stays(t, file, chunks, n, (m - 1) as nat);
    }
}

/// What planning has found so far.
pub struct PlanWork {
    pub ranges: Vec<Range<u32>>,
    pub parts: Vec<FlashPart>,
}

impl View for PlanWork {
    type V = Work;

    open spec fn view(&self) -> Work {
        Work { ranges: self.ranges@, parts: image::parts_of(self.parts@) }
    }
}

impl PlanWork {
    /// Whether the ranges lie in flash and no part is left to be decoded.
    pub open spec fn wf(self, flash_end: u32) -> bool {
        &&& elf::lie_in_flash(self.ranges@, flash_end)
        &&& forall|i: int|
            0 <= i < self.parts@.len() ==> (#[trigger] self.parts@[i]).format
                != ImageFormat::IntelHex
    }
}

/// Adds the staged chunks of an Intel HEX file to what planning has found so far.
fn stage_chunks(walk: &mut Walk, file: &str, chunks: &Vec<Chunk>, flash_end: u32) -> (work: Result<
    PlanWork,
    Stop,
>)
    requires
        forall|i: int|
            0 <= i < chunks@.len() ==> ihex::in_flash(
                #[trigger] ihex::pieces_of(chunks@)[i],
                FLASH_BASE,
                flash_end,
            ),
    ensures
        (final(walk)@, walk::seen(work)) == chunks_staged(
            old(walk)@,
            file@,
            ihex::pieces_of(chunks@),
            chunks@.len(),
        ),
        work matches Ok(work) ==> work.wf(flash_end),
{
    let ghost all = ihex::pieces_of(chunks@);
    let mut work = PlanWork { ranges: Vec::new(), parts: Vec::new() };
    let mut i: usize = 0;
    assert(image::parts_of(work.parts@) =~= Seq::<Part>::empty());
    assert(work.ranges@ =~= Seq::<Range<u32>>::empty());
    while i < chunks.len()
        invariant
            i <= chunks@.len(),
            all == ihex::pieces_of(chunks@),
            forall|k: int|
                0 <= k < chunks@.len() ==> ihex::in_flash(#[trigger] all[k], FLASH_BASE, flash_end),
            work.wf(flash_end),
            chunks_staged(old(walk)@, file@, all, i as nat) == (walk@, Ok::<Work, Halt>(work@)),
        decreases chunks@.len() - i,
    {
        let ghost sofar = work;
        let chunk = &chunks[i];
        proof {
            assert(all[i as int] == chunk@);
            assert(ihex::in_flash(all[i as int], FLASH_BASE, flash_end));
        }
        match stage(walk, &chunk.data) {
            Ok(path) => {
                let len: u32 = chunk.data.len() as u32;
                work.ranges.push(chunk.address..chunk.address + len);
                work.parts.push(
                    FlashPart {
                        file: file.to_owned(),
                        addr: chunk.address,
                        format: ImageFormat::Bin,
                        staged: Some(path),
                    },
                );
                assert(work.ranges@ =~= sofar.ranges@.push(chunk_range(chunk@)));
                assert(image::parts_of(work.parts@) =~= image::parts_of(sofar.parts@).push(
                    Part {
                        file: file@,
                        addr: chunk.address,
                        format: ImageFormat::Bin,
                        staged: Some(path@),
                    },
                ));
            },
            Err(stop) => {
                proof {
                    lemma_unstaged_stays(
                        old(walk)@,
                        file@,
                        all,
                        (i + 1) as nat,
                        chunks@.len(),
                    );
                }
                return Err(stop);
            },
        }
        i += 1;
    }
    Ok(work)
}

/// The flash that an Intel HEX file fills, and its decoded parts.
#[verifier::opaque]
pub open spec fn hex_planned(t: Trail, file: Seq<char>, flash_end: u32) -> (
    Trail,
    Result<Work, Halt>,
) {
    match contents(t, file) {
        (u, Err(halt)) => (u, Err(halt)),
        (u, Ok(data)) => match ihex::hex_image(data, FLASH_BASE, flash_end) {
            Err(fault) => (u, config::usage("invalid Intel HEX "@ + file + ": "@ + fault)),
            Ok(chunks) => chunks_staged(u, file, chunks, chunks.len()),
        },
    }
}

/// Decodes an Intel HEX file.
fn plan_hex(walk: &mut Walk, file: &str, flash_end: u32) -> (work: Result<PlanWork, Stop>)
    ensures
        (final(walk)@, walk::seen(work)) == hex_planned(old(walk)@, file@, flash_end),
        work matches Ok(work) ==> work.wf(flash_end),
{
    reveal(hex_planned);
    let data = read_file(walk, file)?;
    proof {
        ihex::law_accepted_image(ihex::lines_of(data@), FLASH_BASE, flash_end);
    }
    match ihex::parse(data.as_slice(), FLASH_BASE, flash_end) {
        Err(fault) => Err(
            Stop::Fail(AppError::Usage(cat4("invalid Intel HEX ", file, ": ", fault.as_str()))),
        ),
        Ok(chunks) => stage_chunks(walk, file, &chunks, flash_end),
    }
}

impl Part {
    /// The part as it is programmed where nothing has to be decoded.
    pub open spec fn plain(self) -> Part {
        Part { file: self.file, addr: self.addr, format: self.format, staged: None }
    }
}

/// What a file asks for.
#[verifier::opaque]
pub open spec fn part_planned(t: Trail, part: Part, flash_end: u32) -> (Trail, Result<Work, Halt>) {
    match part.format {
        ImageFormat::Bin => match bin_planned(t, part, flash_end) {
            (u, Err(halt)) => (u, Err(halt)),
            (u, Ok(range)) => (
                u,
                Ok(Work { ranges: seq![range], parts: seq![part.plain()] }),
            ),
        },
        ImageFormat::Elf => match elf_planned(t, part.file, flash_end) {
            (u, Err(halt)) => (u, Err(halt)),
            (u, Ok(ranges)) => (u, Ok(Work { ranges, parts: seq![part.plain()] })),
        },
        ImageFormat::IntelHex => hex_planned(t, part.file, flash_end),
    }
}

/// Finds what a file asks for.
fn plan_part(walk: &mut Walk, part: &FlashPart, flash_end: u32) -> (work: Result<PlanWork, Stop>)
    ensures
        (final(walk)@, walk::seen(work)) == part_planned(old(walk)@, part@, flash_end),
        work matches Ok(work) ==> work.wf(flash_end),
{
    reveal(part_planned);
    let ranges = match part.format {
        ImageFormat::Bin => {
            let range = plan_bin(walk, part, flash_end)?;
            let mut ranges: Vec<Range<u32>> = Vec::new();
            ranges.push(range);
            assert(ranges@ =~= seq![range]);
            ranges
        },
        ImageFormat::Elf => plan_elf(walk, part.file.as_str(), flash_end)?,
        ImageFormat::IntelHex => {
            return plan_hex(walk, part.file.as_str(), flash_end);
        },
    };
    let plain = FlashPart {
        file: part.file.clone(),
        addr: part.addr,
        format: part.format,
        staged: None,
    };
    let mut parts: Vec<FlashPart> = Vec::new();
    parts.push(plain);
    assert(image::parts_of(parts@) =~= seq![part@.plain()]);
    Ok(PlanWork { ranges, parts })
}

/// What the first `n` files ask for.
pub open spec fn all_planned(t: Trail, parts: Seq<Part>, n: nat, flash_end: u32) -> (
    Trail,
    Result<Work, Halt>,
)
    decreases n,
{
    if n == 0 {
        (t, Ok(Work { ranges: Seq::empty(), parts: Seq::empty() }))
    } else {
        match all_planned(t, parts, (n - 1) as nat, flash_end) {
            (u, Err(halt)) => (u, Err(halt)),
            (u, Ok(work)) => match part_planned(u, parts[n - 1], flash_end) {
                (v, Err(halt)) => (v, Err(halt)),
                (v, Ok(more)) => (
                    v,
                    Ok(
                        Work {
                            ranges: work.ranges + more.ranges,
                            parts: work.parts + more.parts,
                        },
                    ),
                ),
            },
        }
    }
}

/// The first failure decides.
proof fn lemma_unplanned_stays(t: Trail, parts: Seq<Part>, n: nat, m: nat, flash_end: u32)
    requires
        n <= m,
        all_planned(t, parts, n, flash_end).1 is Err,
    ensures
        all_planned(t, parts, m, flash_end) == all_planned(t, parts, n, flash_end),
    decreases m,
{
    if n < m {
        lemma_unplanned_stays(t, parts, n, (m - 1) as nat, flash_end);
    }
}

/// Finds what files ask for.
fn plan_parts(walk: &mut Walk, parts: &Vec<FlashPart>, flash_end: u32) -> (work: Result<
    PlanWork,
    Stop,
>)
    ensures
        (final(walk)@, walk::seen(work)) == all_planned(
            old(walk)@,
            image::parts_of(parts@),
            parts@.len(),
            flash_end,
        ),
        work matches Ok(work) ==> work.wf(flash_end),
{
    let ghost all = image::parts_of(parts@);
    let mut work = PlanWork { ranges: Vec::new(), parts: Vec::new() };
    let mut i: usize = 0;
    assert(image::parts_of(work.parts@) =~= Seq::<Part>::empty());
    assert(work.ranges@ =~= Seq::<Range<u32>>::empty());
    while i < parts.len()
        invariant
            i <= parts@.len(),
            all == image::parts_of(parts@),
            work.wf(flash_end),
            all_planned(old(walk)@, all, i as nat, flash_end) == (
                walk@,
                Ok::<Work, Halt>(work@),
            ),
        decreases parts@.len() - i,
    {
        let ghost sofar = work;
        assert(all[i as int] == parts@[i as int]@);
        match plan_part(walk, &parts[i], flash_end) {
            Ok(more) => {
                let PlanWork { ranges: mut more_ranges, parts: mut more_parts } = more;
                let ghost new_ranges = more_ranges@;
                let ghost new_parts = more_parts@;
                work.ranges.append(&mut more_ranges);
                work.parts.append(&mut more_parts);
                proof {
                    assert(work.ranges@ =~= sofar.ranges@ + new_ranges);
                    assert(work.parts@ =~= sofar.parts@ + new_parts);
                    assert(image::parts_of(work.parts@) =~= image::parts_of(sofar.parts@)
                        + image::parts_of(new_parts));
                }
            },
            Err(stop) => {
                proof {
                    lemma_unplanned_stays(
                        old(walk)@,
                        all,
                        (i + 1) as nat,
                        parts@.len(),
                        flash_end,
                    );
                }
                return Err(stop);
            },
        }
        i += 1;
    }
    Ok(work)
}

/// How an image is written.
#[derive(Debug)]
pub enum FlashPlan {
    /// One raw file: it is erased and written in one go.
    Single,
    /// The ranges are erased, and then the parts are written.
    Ranges { ranges: Vec<Range<u32>>, parts: Vec<FlashPart> },
}

/// What a [`FlashPlan`] says.
pub enum Plan {
    Single,
    Ranges { ranges: Seq<Range<u32>>, parts: Seq<Part> },
}

impl View for FlashPlan {
    type V = Plan;

    open spec fn view(&self) -> Plan {
        match *self {
            FlashPlan::Single => Plan::Single,
            FlashPlan::Ranges { ranges, parts } => Plan::Ranges {
                ranges: ranges@,
                parts: image::parts_of(parts@),
            },
        }
    }
}

/// The plan for some files. It is made before anything is erased.
#[verifier::opaque]
pub open spec fn planned(t: Trail, parts: Seq<Part>, flash_end: u32) -> (Trail, Result<Plan, Halt>) {
    if parts.len() == 0 {
        (t, config::usage("image has no parts"@))
    } else {
        match all_planned(t, parts, parts.len(), flash_end) {
            (u, Err(halt)) => (u, Err(halt)),
            (u, Ok(work)) => match image::arrangement(work.ranges) {
                Err(failure) => (u, Err(Halt::Fail(failure))),
                Ok(ranges) => if parts.len() == 1 && parts[0].format == ImageFormat::Bin {
                    (u, Ok(Plan::Single))
                } else {
                    (u, Ok(Plan::Ranges { ranges, parts: work.parts }))
                },
            },
        }
    }
}

/// Checks whole files and plans how they are written.
pub fn plan_flash(walk: &mut Walk, parts: &Vec<FlashPart>, flash_end: u32) -> (plan: Result<
    FlashPlan,
    Stop,
>)
    ensures
        (final(walk)@, walk::seen(plan)) == planned(
            old(walk)@,
            image::parts_of(parts@),
            flash_end,
        ),
        plan matches Ok(FlashPlan::Single) ==> parts@.len() == 1 && parts@[0].format
            == ImageFormat::Bin,
        plan matches Ok(FlashPlan::Ranges { ranges, parts }) ==> image::hold_something(ranges@)
            && forall|i: int|
            0 <= i < parts@.len() ==> (#[trigger] parts@[i]).format != ImageFormat::IntelHex,
{
    reveal(planned);
    if parts.len() == 0 {
        return Err(Stop::Fail(AppError::Usage("image has no parts".to_owned())));
    }
    let work = plan_parts(walk, parts, flash_end)?;
    let ranges = lift(arrange_ranges(&work.ranges))?;
    assert(image::parts_of(parts@)[0] == parts@[0]@);
    if parts.len() == 1 && parts[0].format == ImageFormat::Bin {
        return Ok(FlashPlan::Single);
    }
    Ok(FlashPlan::Ranges { ranges, parts: work.parts })
}

/// Trouble after the first erase leaves flash incomplete.
pub open spec fn unfinished(halt: Halt) -> Halt {
    match halt {
        Halt::Fail(failure) => Halt::Fail(failure.flash_incomplete()),
        _ => halt,
    }
}

/// The output of a command that changes or checks flash.
#[verifier::opaque]
pub open spec fn flash_run(t: Trail, tcl: Seq<char>) -> (Trail, Result<Seq<char>, Halt>) {
    match session::run_of(t, tcl) {
        (u, Err(halt)) => (u, Err(unfinished(halt))),
        (u, Ok(output)) => (u, Ok(output)),
    }
}

/// Runs a command that changes or checks flash.
pub fn run_flash(walk: &mut Walk, tcl: &str) -> (output: Result<String, Stop>)
    ensures
        (final(walk)@, walk::seen(output)) == flash_run(old(walk)@, tcl@),
{
    reveal(flash_run);
    match run(walk, tcl) {
        Err(Stop::Fail(error)) => Err(Stop::Fail(error.flash_incomplete())),
        output => output,
    }
}

/// A part is written.
#[verifier::opaque]
pub open spec fn part_written(t: Trail, part: Part, erase: bool) -> (Trail, Result<(), Halt>) {
    match walk::ask_act(t, Request::Print("Programming "@ + part.label() + "..."@)) {
        (u, Err(halt)) => (u, Err(halt)),
        (u, Ok(())) => match flash_run(u, part.write_command(erase)) {
            (v, Err(halt)) => (v, Err(halt)),
            (v, Ok(output)) => match walk::ask_act(
                v,
                Request::Print("ok: wrote "@ + part.label()),
            ) {
                (x, Err(halt)) => (x, Err(halt)),
                (x, Ok(())) => if output.len() == 0 {
                    (x, Ok(()))
                } else {
                    walk::ask_act(x, Request::Print("  "@ + text::indented(output)))
                },
            },
        },
    }
}

/// Writes a part.
pub fn write_part(walk: &mut Walk, part: &FlashPart, erase: bool) -> (outcome: Result<(), Stop>)
    requires
        part.format != ImageFormat::IntelHex,
    ensures
        (final(walk)@, walk::seen(outcome)) == part_written(old(walk)@, part@, erase),
{
    reveal(part_written);
    let label = part_label(part);
    walk.print(cat3("Programming ", label.as_str(), "...").as_str())?;
    let output = run_flash(walk, write_command(part, erase).as_str())?;
    walk.print(cat("ok: wrote ", label.as_str()).as_str())?;
    if output.as_str().is_empty() {
        Ok(())
    } else {
        walk.print(cat("  ", indent(output.as_str()).as_str()).as_str())
    }
}

/// A part is compared with flash.
#[verifier::opaque]
pub open spec fn part_verified(t: Trail, part: Part) -> (Trail, Result<(), Halt>) {
    match walk::ask_act(t, Request::Print("Verifying "@ + part.file + "..."@)) {
        (u, Err(halt)) => (u, Err(halt)),
        (u, Ok(())) => match flash_run(u, part.verify_command()) {
            (v, Err(halt)) => (v, Err(halt)),
            (v, Ok(_)) => walk::ask_act(v, Request::Print("ok: verified "@ + part.file)),
        },
    }
}

/// Compares a part with flash.
pub fn verify_part(walk: &mut Walk, part: &FlashPart) -> (outcome: Result<(), Stop>)
    requires
        part.format != ImageFormat::IntelHex,
    ensures
        (final(walk)@, walk::seen(outcome)) == part_verified(old(walk)@, part@),
{
    reveal(part_verified);
    walk.print(cat3("Verifying ", part.file.as_str(), "...").as_str())?;
    let _ = run_flash(walk, verify_command(part).as_str())?;
    walk.print(cat("ok: verified ", part.file.as_str()).as_str())
}

/// Whether ranges lie in flash and no part is left to be decoded.
pub open spec fn is_sound(work: Work, flash_end: u32) -> bool {
    &&& elf::lie_in_flash(work.ranges, flash_end)
    &&& forall|i: int|
        0 <= i < work.parts.len() ==> (#[trigger] work.parts[i]).format != ImageFormat::IntelHex
}

/// Staged chunks in flash are sound.
proof fn lemma_chunks_staged(
    t: Trail,
    file: Seq<char>,
    chunks: Seq<ihex::Piece>,
    n: nat,
    flash_end: u32,
)
    requires
        n <= chunks.len(),
        forall|i: int|
            0 <= i < chunks.len() ==> ihex::in_flash(#[trigger] chunks[i], FLASH_BASE, flash_end),
    ensures
        chunks_staged(t, file, chunks, n).1 matches Ok(work) ==> is_sound(work, flash_end)
            && work.ranges.len() == n,
    decreases n,
{
    if n > 0 {
        lemma_chunks_staged(t, file, chunks, (n - 1) as nat, flash_end);
        assert(ihex::in_flash(chunks[n - 1], FLASH_BASE, flash_end));
    }
}

/// What a file asks for is sound.
proof fn lemma_part_planned(t: Trail, part: Part, flash_end: u32)
    ensures
        part_planned(t, part, flash_end).1 matches Ok(work) ==> is_sound(work, flash_end)
            && work.ranges.len() > 0,
{
    reveal(part_planned);
    match part.format {
        ImageFormat::Bin => {
            reveal(bin_planned);
        },
        ImageFormat::Elf => {
            reveal(elf_planned);
            if let (_, Ok(data)) = contents(t, part.file) {
                elf::law_load_ranges_lie_in_flash(data, flash_end);
            }
        },
        ImageFormat::IntelHex => {
            reveal(hex_planned);
            if let (u, Ok(data)) = contents(t, part.file) {
                ihex::law_accepted_image(ihex::lines_of(data), FLASH_BASE, flash_end);
                if let Ok(chunks) = ihex::hex_image(data, FLASH_BASE, flash_end) {
                    lemma_chunks_staged(u, part.file, chunks, chunks.len(), flash_end);
                }
            }
        },
    }
}

/// What files ask for is sound.
pub(crate) proof fn lemma_all_planned(t: Trail, parts: Seq<Part>, n: nat, flash_end: u32)
    ensures
        all_planned(t, parts, n, flash_end).1 matches Ok(work) ==> is_sound(work, flash_end) && (n
            > 0 ==> work.ranges.len() > 0),
    decreases n,
{
    if n > 0 {
        lemma_all_planned(t, parts, (n - 1) as nat, flash_end);
        if let (u, Ok(work)) = all_planned(t, parts, (n - 1) as nat, flash_end) {
            lemma_part_planned(u, parts[n - 1], flash_end);
        }
    }
}

/// The ranges of a plan are in ascending order, hold something, lie in flash, and no two of them
/// have an address in common. What is written has been decoded. One raw file that is written as it is
/// holds something and ends inside flash.
pub proof fn law_plan_is_sound(t: Trail, parts: Seq<Part>, flash_end: u32)
    ensures
        planned(t, parts, flash_end).1 matches Ok(plan) ==> match plan {
            Plan::Single => {
                &&& parts.len() == 1
                &&& parts[0].format == ImageFormat::Bin
                &&& FLASH_BASE <= parts[0].addr
                &&& walk::ask_number(t, Request::FileSize(parts[0].file)).1 matches Ok(Ok(size))
                &&& size > 0
                &&& parts[0].addr + size <= flash_end
            },
            Plan::Ranges { ranges, parts } => {
                &&& ranges.len() > 0
                &&& elf::lie_in_flash(ranges, flash_end)
                &&& forall|i: int, j: int|
                    0 <= i < j < ranges.len() ==> (#[trigger] ranges[i]).end <= (
                    #[trigger] ranges[j]).start
                &&& forall|i: int|
                    0 <= i < parts.len() ==> (#[trigger] parts[i]).format != ImageFormat::IntelHex
            },
        },
{
    reveal(planned);
    lemma_all_planned(t, parts, parts.len(), flash_end);
    if let (u, Ok(work)) = all_planned(t, parts, parts.len(), flash_end) {
        image::law_accepted_ranges_are_disjoint(work.ranges);
        if let Ok(ranges) = image::arrangement(work.ranges) {
            assert forall|i: int| 0 <= i < ranges.len() implies FLASH_BASE <= (
            #[trigger] ranges[i]).start && ranges[i].start < ranges[i].end && ranges[i].end
                <= flash_end by {
                assert(ranges.contains(ranges[i]));
                assert(work.ranges.contains(ranges[i]));
            }
        }
        if parts.len() == 1 && parts[0].format == ImageFormat::Bin {
            reveal_with_fuel(all_planned, 2);
            reveal(part_planned);
            reveal(bin_planned);
        }
    }
}

/// The files of an image that was accepted when the configuration was read are accepted again when
/// it is written, at the same addresses.
proof fn lemma_accepted_parts(name: Seq<char>, parts: Seq<RawPart>)
    ensures
        config::part_entries(name, parts) matches Ok(entries) ==> {
            &&& entries.len() == parts.len()
            &&& named_parts(entries) matches Ok(found) && is_at_its_address(entries, found)
        },
    decreases parts.len(),
{
    if parts.len() > 0 {
        lemma_accepted_parts(name, parts.drop_last());
        let front = config::part_entries(name, parts.drop_last());
        let last = config::part_entry(name, parts.last());
        if front is Ok && last is Ok {
            let entries = front->Ok_0.push(last->Ok_0);
            let entry = entries.last();
            assert(entries.drop_last() =~= front->Ok_0);
            if let Some(addr) = parts.last().addr {
                number::law_flash_address_is_stable(addr as nat);
            }
            let found = named_parts(entries)->Ok_0;
            assert(found.drop_last() =~= named_parts(front->Ok_0)->Ok_0);
            assert forall|i: int| 0 <= i < entries.len() implies (#[trigger] found[i]).addr
                == entry_address(entries[i]) && found[i].file == entries[i].path by {
                if i < entries.len() - 1 {
                    assert(entries[i] == front->Ok_0[i]);
                    assert(found[i] == named_parts(front->Ok_0)->Ok_0[i]);
                }
            }
        }
    }
}

/// The address at which a file of a configuration is written. A file with addresses of its own has
/// none.
pub open spec fn entry_address(entry: PartEntry) -> int {
    match entry.addr {
        Some(addr) => addr as int,
        None => 0,
    }
}

/// Whether each part is the file of its entry, at the address of its entry.
pub open spec fn is_at_its_address(entries: Seq<PartEntry>, parts: Seq<Part>) -> bool {
    &&& parts.len() == entries.len()
    &&& forall|i: int|
        0 <= i < parts.len() ==> (#[trigger] parts[i]).addr == entry_address(entries[i])
            && parts[i].file == entries[i].path
}

/// An image that is accepted when the configuration is read is never rejected for its formats or
/// addresses when it is written: every file of it is written, at the address that the configuration
/// gives.
pub proof fn law_accepted_image_keeps_its_addresses(image: RawImage)
    ensures
        config::image_entry(image) matches Ok(entry) ==> {
            &&& entry.parts.len() == image.parts@.len()
            &&& named_parts(entry.parts) matches Ok(parts) && is_at_its_address(
                entry.parts,
                parts,
            )
        },
{
    lemma_accepted_parts(image.name@, image.parts@);
}

/// Whether a part is a chunk that was put, decoded, in a file of its own.
pub open spec fn is_staged(t: Trail, part: Part, range: Range<u32>, chunk: ihex::Piece) -> bool {
    &&& part.addr == chunk.address
    &&& part.format == ImageFormat::Bin
    &&& range == chunk_range(chunk)
    &&& exists|u: Trail|
        u.replies == t.replies && (#[trigger] staged(u, chunk.data)).1 == Ok::<Seq<char>, Halt>(
            part.programmed(),
        )
}

/// Each chunk is staged.
proof fn lemma_chunk_is_staged(
    t: Trail,
    file: Seq<char>,
    chunks: Seq<ihex::Piece>,
    n: nat,
    flash_end: u32,
)
    requires
        n <= chunks.len(),
        forall|i: int|
            0 <= i < chunks.len() ==> ihex::in_flash(#[trigger] chunks[i], FLASH_BASE, flash_end),
    ensures
        chunks_staged(t, file, chunks, n).0.replies == t.replies,
        chunks_staged(t, file, chunks, n).1 matches Ok(work) ==> {
            &&& work.parts.len() == n
            &&& work.ranges.len() == n
            &&& forall|i: int|
                0 <= i < n ==> is_staged(t, #[trigger] work.parts[i], work.ranges[i], chunks[i])
        },
    decreases n,
{
    reveal(staged);
    if n > 0 {
        lemma_chunk_is_staged(t, file, chunks, (n - 1) as nat, flash_end);
        if let (u, Ok(front)) = chunks_staged(t, file, chunks, (n - 1) as nat) {
            let chunk = chunks[n - 1];
            assert(ihex::in_flash(chunk, FLASH_BASE, flash_end));
            if let Ok(path) = staged(u, chunk.data).1 {
                let work = chunks_staged(t, file, chunks, n).1->Ok_0;
                assert(work.parts[n - 1].programmed() == path);
                assert forall|i: int| 0 <= i < n implies is_staged(
                    t,
                    #[trigger] work.parts[i],
                    work.ranges[i],
                    chunks[i],
                ) by {
                    if i < n - 1 {
                        assert(work.parts[i] == front.parts[i]);
                        assert(work.ranges[i] == front.ranges[i]);
                    }
                }
            }
        }
    }
}

/// What is written of an Intel HEX file is its decoded data: there is one part for each chunk of the
/// image, at the address of the chunk, and the file that is programmed is the one in which the data
/// of the chunk was put.
pub proof fn law_hex_is_written_from_its_decoded_data(t: Trail, file: Seq<char>, flash_end: u32)
    ensures
        hex_planned(t, file, flash_end).1 matches Ok(work) ==> {
            &&& contents(t, file).1 matches Ok(data)
            &&& ihex::hex_image(data, FLASH_BASE, flash_end) matches Ok(chunks)
            &&& work.parts.len() == chunks.len()
            &&& work.ranges.len() == chunks.len()
            &&& forall|i: int|
                0 <= i < chunks.len() ==> is_staged(
                    t,
                    #[trigger] work.parts[i],
                    work.ranges[i],
                    chunks[i],
                )
        },
{
    reveal(hex_planned);
    reveal(contents);
    if let (u, Ok(data)) = contents(t, file) {
        ihex::law_accepted_image(ihex::lines_of(data), FLASH_BASE, flash_end);
        if let Ok(chunks) = ihex::hex_image(data, FLASH_BASE, flash_end) {
            lemma_chunk_is_staged(u, file, chunks, chunks.len(), flash_end);
            if let Ok(work) = chunks_staged(u, file, chunks, chunks.len()).1 {
                assert forall|i: int| 0 <= i < chunks.len() implies is_staged(
                    t,
                    #[trigger] work.parts[i],
                    work.ranges[i],
                    chunks[i],
                ) by {
                    assert(is_staged(u, work.parts[i], work.ranges[i], chunks[i]));
                }
            }
        }
    }
}

} // verus!
