//! Image files: their formats and addresses, the flash that they fill, and how they are written.
use crate::error;
use crate::error::{AppError, AppResult, Failure};
use crate::order;
use crate::order::sort_pairs;
use crate::target;
use crate::target::{normalize_flash_addr, FLASH_BASE};
use crate::tcl;
use crate::tcl::tcl_literal;
use crate::text;
use crate::text::{cat, cat3, cat4, cat5, decimal_text, hex8_text, hex_text, same, to_lower};
use std::ops::Range;
use vstd::prelude::*;

verus! {

/// The formats of image files.
#[derive(Debug, Clone, Copy, PartialEq, Eq, Structural)]
pub enum ImageFormat {
    Bin,
    Elf,
    IntelHex,
}

/// An image file: its path as it is shown, and its extension where that is Unicode.
#[derive(Debug)]
pub struct ImageFile {
    pub path: String,
    pub extension: Option<String>,
}

/// The format that an extension stands for, in either case.
pub open spec fn format_of(path: Seq<char>, extension: Option<Seq<char>>) -> Result<
    ImageFormat,
    Failure,
> {
    match extension {
        None => Err(Failure::Usage("image file has no supported extension: "@ + path)),
        Some(extension) => {
            let lower = text::lowered(extension);
            if lower == "bin"@ {
                Ok(ImageFormat::Bin)
            } else if lower == "elf"@ || lower == "axf"@ {
                Ok(ImageFormat::Elf)
            } else if lower == "hex"@ || lower == "ihex"@ || lower == "mcs"@ {
                Ok(ImageFormat::IntelHex)
            } else if lower == "s19"@ || lower == "srec"@ {
                Err(
                    Failure::Usage(
                        "self-addressed image "@ + path
                            + " cannot be validated before erase; use a raw .bin with an address"@,
                    ),
                )
            } else {
                Err(
                    Failure::Usage(
                        "unsupported image extension '."@ + lower + "' for "@ + path,
                    ),
                )
            }
        },
    }
}

/// Finds the format of an image file.
pub fn image_format(file: &ImageFile) -> (result: AppResult<ImageFormat>)
    ensures
        error::agrees(result, format_of(file.path@, text::maybe(file.extension))),
{
    match &file.extension {
        None => Err(
            AppError::Usage(cat("image file has no supported extension: ", file.path.as_str())),
        ),
        Some(extension) => {
            let lower = to_lower(extension.as_str());
            let lower = lower.as_str();
            if same(lower, "bin") {
                Ok(ImageFormat::Bin)
            } else if same(lower, "elf") || same(lower, "axf") {
                Ok(ImageFormat::Elf)
            } else if same(lower, "hex") || same(lower, "ihex") || same(lower, "mcs") {
                Ok(ImageFormat::IntelHex)
            } else if same(lower, "s19") || same(lower, "srec") {
                Err(
                    AppError::Usage(
                        cat3(
                            "self-addressed image ",
                            file.path.as_str(),
                            " cannot be validated before erase; use a raw .bin with an address",
                        ),
                    ),
                )
            } else {
                Err(
                    AppError::Usage(
                        cat4("unsupported image extension '.", lower, "' for ", file.path.as_str()),
                    ),
                )
            }
        },
    }
}

/// The flash address for an image file: a raw file needs one, and no other file may have one. The
/// address of a file that has its own addresses is given as zero.
pub open spec fn address_of(
    path: Seq<char>,
    extension: Option<Seq<char>>,
    addr: Option<u64>,
    context: Seq<char>,
) -> Result<u32, Failure> {
    match format_of(path, extension) {
        Err(failure) => Err(failure),
        Ok(ImageFormat::Bin) => match addr {
            None => Err(Failure::Usage("raw .bin in "@ + context + " requires an address"@)),
            Some(addr) => target::flash_address(addr as nat),
        },
        Ok(_) => match addr {
            None => Ok(0),
            Some(_) => Err(
                Failure::Usage(
                    "image in "@ + context + " uses its own load addresses; remove the address"@,
                ),
            ),
        },
    }
}

/// Checks the address of an image file against its format.
pub fn validate_image_address(file: &ImageFile, addr: Option<u64>, context: &str) -> (result:
    AppResult<u32>)
    ensures
        error::agrees(
            result,
            address_of(file.path@, text::maybe(file.extension), addr, context@),
        ),
{
    let format = image_format(file)?;
    match format {
        ImageFormat::Bin => match addr {
            None => Err(AppError::Usage(cat3("raw .bin in ", context, " requires an address"))),
            Some(addr) => normalize_flash_addr(addr),
        },
        _ => match addr {
            None => Ok(0),
            Some(_) => Err(
                AppError::Usage(
                    cat3(
                        "image in ",
                        context,
                        " uses its own load addresses; remove the address",
                    ),
                ),
            ),
        },
    }
}

/// A file to be written to flash.
#[derive(Debug)]
pub struct FlashPart {
    pub file: String,
    pub addr: u32,
    pub format: ImageFormat,
    /// The file that holds the decoded bytes, where that is not `file` itself.
    pub staged: Option<String>,
}

/// What a [`FlashPart`] says.
pub struct Part {
    pub file: Seq<char>,
    pub addr: u32,
    pub format: ImageFormat,
    pub staged: Option<Seq<char>>,
}

impl View for FlashPart {
    type V = Part;

    open spec fn view(&self) -> Part {
        Part {
            file: self.file@,
            addr: self.addr,
            format: self.format,
            staged: text::maybe(self.staged),
        }
    }
}

/// What some parts say.
pub open spec fn parts_of(parts: Seq<FlashPart>) -> Seq<Part> {
    parts.map_values(|part: FlashPart| part@)
}

impl Part {
    /// The file that is programmed.
    pub open spec fn programmed(self) -> Seq<char> {
        match self.staged {
            Some(staged) => staged,
            None => self.file,
        }
    }

    /// What the part is called in messages.
    pub open spec fn label(self) -> Seq<char> {
        if self.format == ImageFormat::Elf {
            self.file + " at ELF load addresses"@
        } else {
            self.file + " @ "@ + text::hex8(self.addr as nat)
        }
    }

    /// The name of the format of what is programmed.
    pub open spec fn kind(self) -> Seq<char> {
        if self.format == ImageFormat::Elf {
            "elf"@
        } else {
            "bin"@
        }
    }

    /// The command that writes the part.
    pub open spec fn write_command(self, erase: bool) -> Seq<char> {
        "flash write_image"@ + (if erase {
            " erase"@
        } else {
            ""@
        }) + " unlock "@ + tcl::literal(self.programmed()) + " "@ + text::hex(self.addr as nat)
            + " "@ + self.kind()
    }

    /// The command that compares flash with the part.
    pub open spec fn verify_command(self) -> Seq<char> {
        "verify_image "@ + tcl::literal(self.programmed()) + " "@ + text::hex(self.addr as nat)
            + " "@ + self.kind()
    }
}

/// The file that is programmed.
pub fn programming_path(part: &FlashPart) -> (path: &str)
    ensures
        path@ == part@.programmed(),
{
    match &part.staged {
        Some(staged) => staged.as_str(),
        None => part.file.as_str(),
    }
}

/// What a part is called in messages.
pub fn part_label(part: &FlashPart) -> (label: String)
    ensures
        label@ == part@.label(),
{
    if part.format == ImageFormat::Elf {
        cat(part.file.as_str(), " at ELF load addresses")
    } else {
        cat3(part.file.as_str(), " @ ", hex8_text(part.addr as u64).as_str())
    }
}

/// The name of the format of what is programmed. Intel HEX is decoded before.
pub fn image_type(part: &FlashPart) -> (kind: &'static str)
    requires
        part.format != ImageFormat::IntelHex,
    ensures
        kind@ == part@.kind(),
{
    if part.format == ImageFormat::Elf {
        "elf"
    } else {
        "bin"
    }
}

/// The command that writes a part.
pub fn write_command(part: &FlashPart, erase: bool) -> (command: String)
    requires
        part.format != ImageFormat::IntelHex,
    ensures
        command@ == part@.write_command(erase),
{
    let mut command = cat4(
        "flash write_image",
        if erase {
            " erase"
        } else {
            ""
        },
        " unlock ",
        tcl_literal(programming_path(part)).as_str(),
    );
    command.append(" ");
    command.append(hex_text(part.addr as u64).as_str());
    command.append(" ");
    command.append(image_type(part));
    command
}

/// The command that compares flash with a part.
pub fn verify_command(part: &FlashPart) -> (command: String)
    requires
        part.format != ImageFormat::IntelHex,
    ensures
        command@ == part@.verify_command(),
{
    let mut command = cat4(
        "verify_image ",
        tcl_literal(programming_path(part)).as_str(),
        " ",
        hex_text(part.addr as u64).as_str(),
    );
    command.append(" ");
    command.append(image_type(part));
    command
}

/// The command that erases a range. Erasing works on whole sectors.
pub open spec fn erase_command(range: Range<u32>) -> Seq<char> {
    "flash erase_address pad unlock "@ + text::hex(range.start as nat) + " "@ + text::hex(
        (range.end - range.start) as nat,
    )
}

/// The command that erases a range.
pub fn erase_range_command(range: &Range<u32>) -> (command: String)
    requires
        range.start <= range.end,
    ensures
        command@ == erase_command(*range),
{
    cat4(
        "flash erase_address pad unlock ",
        hex_text(range.start as u64).as_str(),
        " ",
        hex_text((range.end - range.start) as u64).as_str(),
    )
}

/// Intel HEX data could not be staged.
pub open spec fn stage_failure(error: Seq<char>) -> Failure {
    Failure::Runtime("cannot stage Intel HEX data before erase: "@ + error)
}

/// The error for Intel HEX data that could not be staged.
pub fn stage_error(error: &str) -> (failure: AppError)
    ensures
        failure@ == stage_failure(error@),
{
    AppError::Runtime(cat("cannot stage Intel HEX data before erase: ", error))
}

/// Whether the address of a raw file lies in flash.
pub open spec fn address_in_flash(addr: u32, flash_end: u32) -> Result<(), Failure> {
    if FLASH_BASE <= addr < flash_end {
        Ok(())
    } else {
        Err(
            Failure::Usage(
                text::hex8(addr as nat) + " is outside flash ("@ + text::hex8(FLASH_BASE as nat)
                    + "-"@ + text::hex8(flash_end as nat) + ")"@,
            ),
        )
    }
}

/// Accepts an address in flash.
pub fn require_flash_address(addr: u32, flash_end: u32) -> (result: AppResult<()>)
    ensures
        error::agrees(result, address_in_flash(addr, flash_end)),
{
    if FLASH_BASE <= addr && addr < flash_end {
        Ok(())
    } else {
        let mut message = cat5(
            hex8_text(addr as u64).as_str(),
            " is outside flash (",
            hex8_text(FLASH_BASE as u64).as_str(),
            "-",
            hex8_text(flash_end as u64).as_str(),
        );
        message.append(")");
        Err(AppError::Usage(message))
    }
}

/// The flash that a raw file of `size` bytes fills.
pub open spec fn bin_range(file: Seq<char>, addr: u32, size: u64, flash_end: u32) -> Result<
    Range<u32>,
    Failure,
> {
    if address_in_flash(addr, flash_end) is Err {
        Err(address_in_flash(addr, flash_end)->Err_0)
    } else if size == 0 {
        Err(Failure::Usage("raw image is empty: "@ + file))
    } else if addr + size > flash_end {
        Err(
            Failure::Usage(
                file + " ("@ + text::decimal(size as nat) + " B) at "@ + text::hex8(addr as nat)
                    + " runs past flash end "@ + text::hex8(flash_end as nat),
            ),
        )
    } else {
        Ok(Range { start: addr, end: (addr + size) as u32 })
    }
}

/// Finds the flash that a raw file of `size` bytes fills.
pub fn validate_part_range(part: &FlashPart, size: u64, flash_end: u32) -> (result: AppResult<
    Range<u32>,
>)
    ensures
        error::agrees(result, bin_range(part.file@, part.addr, size, flash_end)),
{
    let address: u32 = part.addr;
    require_flash_address(address, flash_end)?;
    if size == 0 {
        return Err(AppError::Usage(cat("raw image is empty: ", part.file.as_str())));
    }
    if size > (flash_end - address) as u64 {
        let mut message = cat5(
            part.file.as_str(),
            " (",
            decimal_text(size).as_str(),
            " B) at ",
            hex8_text(address as u64).as_str(),
        );
        message.append(" runs past flash end ");
        message.append(hex8_text(flash_end as u64).as_str());
        return Err(AppError::Usage(message));
    }
    Ok(address..address + size as u32)
}

/// Ranges as pairs.
pub open spec fn pairs_of(ranges: Seq<Range<u32>>) -> Seq<(u32, u64)> {
    ranges.map_values(|range: Range<u32>| (range.start, range.end as u64))
}

/// Pairs as ranges.
pub open spec fn ranges_of(pairs: Seq<(u32, u64)>) -> Seq<Range<u32>> {
    pairs.map_values(|pair: (u32, u64)| Range { start: pair.0, end: pair.1 as u32 })
}

/// The ranges of `ranges` in ascending order.
pub open spec fn in_flash_order(ranges: Seq<Range<u32>>) -> Seq<Range<u32>> {
    ranges_of(order::in_order(pairs_of(ranges)))
}

/// Whether the range behind position `i` starts before the range at `i` ends.
pub open spec fn overlap_at(ranges: Seq<Range<u32>>, i: int) -> bool {
    0 <= i < ranges.len() - 1 && ranges[i + 1].start < ranges[i].end
}

/// The first position at which ranges overlap.
pub open spec fn first_overlap(ranges: Seq<Range<u32>>) -> int {
    choose|i: int| overlap_at(ranges, i) && forall|j: int| 0 <= j < i ==> !overlap_at(ranges, j)
}

/// The complaint about ranges that overlap.
pub open spec fn overlap_text(left: Range<u32>, right: Range<u32>) -> Seq<char> {
    "image ranges overlap: "@ + text::hex8(left.start as nat) + "-"@ + text::hex8(
        (left.end - 1) as nat,
    ) + " and "@ + text::hex8(right.start as nat) + "-"@ + text::hex8((right.end - 1) as nat)
}

/// The ranges to be written, in ascending order, or the first overlap.
pub open spec fn arrangement(ranges: Seq<Range<u32>>) -> Result<Seq<Range<u32>>, Failure> {
    let sorted = in_flash_order(ranges);
    if exists|i: int| overlap_at(sorted, i) {
        let i = first_overlap(sorted);
        Err(Failure::Usage(overlap_text(sorted[i], sorted[i + 1])))
    } else {
        Ok(sorted)
    }
}

/// Whether each range holds something.
pub open spec fn hold_something(ranges: Seq<Range<u32>>) -> bool {
    forall|i: int| 0 <= i < ranges.len() ==> (#[trigger] ranges[i]).start < ranges[i].end
}

/// Whether `result` is what `expected` says.
pub open spec fn agrees_ranges(
    result: AppResult<Vec<Range<u32>>>,
    expected: Result<Seq<Range<u32>>, Failure>,
) -> bool {
    match expected {
        Ok(ranges) => result is Ok && result->Ok_0@ == ranges,
        Err(failure) => result is Err && result->Err_0@ == failure,
    }
}

/// Sorting keeps the ranges.
proof fn lemma_in_flash_order(ranges: Seq<Range<u32>>)
    ensures
        in_flash_order(ranges).len() == ranges.len(),
        order::is_ordered(pairs_of(in_flash_order(ranges))),
        pairs_of(in_flash_order(ranges)) == order::in_order(pairs_of(ranges)),
        forall|r: Range<u32>| in_flash_order(ranges).contains(r) <==> ranges.contains(r),
        hold_something(ranges) ==> hold_something(in_flash_order(ranges)),
{
    let pairs = pairs_of(ranges);
    let sorted = order::in_order(pairs);
    order::lemma_in_order_ensures(pairs);
    pairs.to_multiset_ensures();
    sorted.to_multiset_ensures();
    let back = in_flash_order(ranges);
    assert forall|i: int| 0 <= i < sorted.len() implies #[trigger] pairs.contains(sorted[i]) by {
        assert(sorted.contains(sorted[i]));
        assert(sorted.to_multiset().count(sorted[i]) > 0);
        assert(pairs.to_multiset().count(sorted[i]) > 0);
    }
    assert forall|i: int| 0 <= i < sorted.len() implies pairs_of(back)[i] == sorted[i] by {
        assert(pairs.contains(sorted[i]));
        let k = choose|k: int| 0 <= k < pairs.len() && pairs[k] == sorted[i];
        assert(pairs[k] == (ranges[k].start, ranges[k].end as u64));
    }
    assert(pairs_of(back) =~= sorted);
    assert forall|r: Range<u32>| back.contains(r) <==> ranges.contains(r) by {
        if back.contains(r) {
            let i = choose|i: int| 0 <= i < back.len() && back[i] == r;
            assert(pairs.contains(sorted[i]));
            let k = choose|k: int| 0 <= k < pairs.len() && pairs[k] == sorted[i];
            assert(ranges[k] == r);
        }
        if ranges.contains(r) {
            let k = choose|k: int| 0 <= k < ranges.len() && ranges[k] == r;
            assert(pairs.contains(pairs[k]));
            assert(pairs.to_multiset().count(pairs[k]) > 0);
            assert(sorted.to_multiset().count(pairs[k]) > 0);
            assert(sorted.contains(pairs[k]));
            let i = choose|i: int| 0 <= i < sorted.len() && sorted[i] == pairs[k];
            assert(back[i] == r);
        }
    }
    if hold_something(ranges) {
        assert forall|i: int| 0 <= i < back.len() implies (#[trigger] back[i]).start < back[i].end by {
            assert(back.contains(back[i]));
            let k = choose|k: int| 0 <= k < ranges.len() && ranges[k] == back[i];
            assert(ranges[k].start < ranges[k].end);
        }
    }
}

/// Puts the ranges to be written in ascending order and rejects any overlap.
pub fn arrange_ranges(ranges: &Vec<Range<u32>>) -> (result: AppResult<Vec<Range<u32>>>)
    requires
        hold_something(ranges@),
    ensures
        agrees_ranges(result, arrangement(ranges@)),
        result matches Ok(sorted) ==> hold_something(sorted@),
{
    let mut pairs: Vec<(u32, u64)> = Vec::new();
    let mut i: usize = 0;
    while i < ranges.len()
        invariant
            i <= ranges@.len(),
            pairs@ == pairs_of(ranges@.take(i as int)),
        decreases ranges@.len() - i,
    {
        pairs.push((ranges[i].start, ranges[i].end as u64));
        i += 1;
        assert(pairs@ =~= pairs_of(ranges@.take(i as int)));
    }
    assert(ranges@.take(i as int) =~= ranges@);
    let sorted = sort_pairs(&pairs);
    let ghost wanted = in_flash_order(ranges@);
    proof {
        lemma_in_flash_order(ranges@);
        assert(pairs_of(wanted) == sorted@);
        assert forall|k: int| 0 <= k < wanted.len() implies (#[trigger] wanted[k]).start
            < wanted[k].end && sorted@[k] == (wanted[k].start, wanted[k].end as u64) by {
            assert(pairs_of(wanted)[k] == (wanted[k].start, wanted[k].end as u64));
        }
    }
    let mut out: Vec<Range<u32>> = Vec::new();
    let mut k: usize = 0;
    while k < sorted.len()
        invariant
            k <= sorted@.len() == wanted.len(),
            out@ == wanted.take(k as int),
            wanted == in_flash_order(ranges@),
            forall|j: int|
                0 <= j < wanted.len() ==> (#[trigger] wanted[j]).start < wanted[j].end && sorted@[j]
                    == (wanted[j].start, wanted[j].end as u64),
            forall|j: int| 0 <= j < k - 1 ==> !overlap_at(wanted, j),
        decreases sorted@.len() - k,
    {
        let range = sorted[k].0..sorted[k].1 as u32;
        assert(range == wanted[k as int]);
        if k > 0 && range.start < out[k - 1].end {
            let ghost at = k - 1;
            proof {
                assert(out@[at] == wanted[at]);
                assert(overlap_at(wanted, at));
                lemma_first_overlap(wanted, at);
            }
            let left = &out[k - 1];
            let mut message = cat5(
                "image ranges overlap: ",
                hex8_text(left.start as u64).as_str(),
                "-",
                hex8_text((left.end - 1) as u64).as_str(),
                " and ",
            );
            message.append(hex8_text(range.start as u64).as_str());
            message.append("-");
            message.append(hex8_text((range.end - 1) as u64).as_str());
            return Err(AppError::Usage(message));
        }
        out.push(range);
        k += 1;
        assert(out@ =~= wanted.take(k as int));
    }
    assert(out@ =~= wanted);
    Ok(out)
}

/// The first overlap is unique.
proof fn lemma_first_overlap(ranges: Seq<Range<u32>>, i: int)
    requires
        overlap_at(ranges, i),
        forall|j: int| 0 <= j < i ==> !overlap_at(ranges, j),
    ensures
        first_overlap(ranges) == i,
{
    let k = first_overlap(ranges);
    assert(overlap_at(ranges, k));
    assert(!(k < i));
    assert(!(i < k));
}

/// Without an overlap of neighbours, each range ends before each later one starts.
proof fn lemma_disjoint(ranges: Seq<Range<u32>>, i: int, j: int)
    requires
        hold_something(ranges),
        forall|k: int| !overlap_at(ranges, k),
        0 <= i < j < ranges.len(),
    ensures
        ranges[i].end <= ranges[j].start,
    decreases j - i,
{
    assert(!overlap_at(ranges, j - 1));
    if i < j - 1 {
        lemma_disjoint(ranges, i, j - 1);
        assert(ranges[j - 1].start < ranges[j - 1].end);
    }
}

/// Ranges that are accepted are all the ranges and no others, in ascending order, and none starts
/// before all earlier ones have ended.
pub proof fn law_accepted_ranges_are_disjoint(ranges: Seq<Range<u32>>)
    requires
        hold_something(ranges),
    ensures
        arrangement(ranges) matches Ok(sorted) ==> {
            &&& sorted.len() == ranges.len()
            &&& forall|r: Range<u32>| sorted.contains(r) <==> ranges.contains(r)
            &&& forall|i: int, j: int|
                0 <= i < j < sorted.len() ==> (#[trigger] sorted[i]).end <= (#[trigger] sorted[j]).start
        },
{
    if arrangement(ranges) is Ok {
        let sorted = in_flash_order(ranges);
        lemma_in_flash_order(ranges);
        assert forall|i: int, j: int| 0 <= i < j < sorted.len() implies (#[trigger] sorted[i]).end
            <= (#[trigger] sorted[j]).start by {
            lemma_disjoint(sorted, i, j);
        }
    }
}

/// Whether two ranges that hold something have an address in common.
pub open spec fn overlap(a: Range<u32>, b: Range<u32>) -> bool {
    a.start < b.end && b.start < a.end
}

/// Two places in a list are two places in any other arrangement of it.
proof fn lemma_two_places(x: Seq<(u32, u64)>, y: Seq<(u32, u64)>, k: int, l: int) -> (places: (
    int,
    int,
))
    requires
        x.to_multiset() == y.to_multiset(),
        0 <= k < y.len(),
        0 <= l < y.len(),
        k != l,
    ensures
        0 <= places.0 < x.len(),
        0 <= places.1 < x.len(),
        places.0 != places.1,
        x[places.0] == y[k],
        x[places.1] == y[l],
{
    x.to_multiset_ensures();
    y.to_multiset_ensures();
    assert(y.contains(y[k]));
    assert(y.to_multiset().count(y[k]) > 0);
    assert(x.contains(y[k]));
    let i = choose|i: int| 0 <= i < x.len() && x[i] == y[k];
    let xr = x.remove(i);
    let yr = y.remove(k);
    vstd::seq_lib::to_multiset_remove(x, i);
    vstd::seq_lib::to_multiset_remove(y, k);
    xr.to_multiset_ensures();
    yr.to_multiset_ensures();
    let lr = if l < k {
        l
    } else {
        l - 1
    };
    assert(yr[lr] == y[l]);
    assert(yr.contains(yr[lr]));
    assert(yr.to_multiset().count(y[l]) > 0);
    assert(xr.contains(y[l]));
    let jr = choose|jr: int| 0 <= jr < xr.len() && xr[jr] == y[l];
    let j = if jr < i {
        jr
    } else {
        jr + 1
    };
    assert(x[j] == y[l]);
    (i, j)
}

/// Ranges are rejected where two of them have an address in common, wherever these two stand, and
/// only then.
pub proof fn law_ranges_are_rejected_for_overlap_alone(ranges: Seq<Range<u32>>)
    requires
        hold_something(ranges),
    ensures
        arrangement(ranges) is Err <==> exists|i: int, j: int|
            0 <= i < ranges.len() && 0 <= j < ranges.len() && i != j && #[trigger] overlap(
                ranges[i],
                ranges[j],
            ),
{
    let sorted = in_flash_order(ranges);
    lemma_in_flash_order(ranges);
    let pairs = pairs_of(ranges);
    let sorted_pairs = pairs_of(sorted);
    order::lemma_in_order_ensures(pairs);
    if arrangement(ranges) is Err {
        let k = choose|k: int| overlap_at(sorted, k);
        let left = sorted[k];
        let right = sorted[k + 1];
        assert(sorted.contains(left) && sorted.contains(right));
        assert(sorted_pairs[k] == (left.start, left.end as u64));
        assert(sorted_pairs[k + 1] == (right.start, right.end as u64));
        assert(order::pair_le(sorted_pairs[k], sorted_pairs[k + 1]));
        let (i, j) = lemma_two_places(pairs, sorted_pairs, k, k + 1);
        assert(pairs[i] == (ranges[i].start, ranges[i].end as u64));
        assert(pairs[j] == (ranges[j].start, ranges[j].end as u64));
        assert(ranges.contains(right));
        assert(overlap(ranges[i], ranges[j]));
    } else {
        law_accepted_ranges_are_disjoint(ranges);
        assert forall|i: int, j: int|
            0 <= i < ranges.len() && 0 <= j < ranges.len() && i != j implies !#[trigger] overlap(
            ranges[i],
            ranges[j],
        ) by {
            let (p, q) = lemma_two_places(sorted_pairs, pairs, i, j);
            assert(pairs[i] == (ranges[i].start, ranges[i].end as u64));
            assert(pairs[j] == (ranges[j].start, ranges[j].end as u64));
            assert(sorted_pairs[p] == (sorted[p].start, sorted[p].end as u64));
            assert(sorted_pairs[q] == (sorted[q].start, sorted[q].end as u64));
            if p < q {
                assert(sorted[p].end <= sorted[q].start);
            } else {
                assert(sorted[q].end <= sorted[p].start);
            }
        }
    }
}

} // verus!
