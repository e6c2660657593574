//! ARM ELF images: the flash ranges that their load segments fill.
use crate::target::FLASH_BASE;
use crate::text;
use crate::text::{cat5, hex8_text};
use std::ops::Range;
use vstd::prelude::*;

verus! {

/// The little-endian number in the two bytes from `at`.
pub open spec fn le16(data: Seq<u8>, at: int) -> nat {
    (data[at] + 0x100 * data[at + 1]) as nat
}

/// The little-endian number in the four bytes from `at`.
pub open spec fn le32(data: Seq<u8>, at: int) -> nat {
    le16(data, at) + 0x1_0000 * le16(data, at + 2)
}

/// Whether a file starts as a little-endian 32-bit ELF file of the current version does.
pub open spec fn is_elf32(data: Seq<u8>) -> bool {
    &&& data.len() >= 52
    &&& data[0] == 0x7f
    &&& data[1] == 0x45
    &&& data[2] == 0x4c
    &&& data[3] == 0x46
    &&& data[4] == 1
    &&& data[5] == 1
    &&& data[6] == 1
}

/// Whether a file is an executable for ARM.
pub open spec fn is_arm_executable(data: Seq<u8>) -> bool {
    le16(data, 16) == 2 && le16(data, 18) == 40 && le32(data, 20) == 1
}

/// Where the program headers start.
pub open spec fn table_offset(data: Seq<u8>) -> nat {
    le32(data, 28)
}

/// The number of program headers.
pub open spec fn header_count(data: Seq<u8>) -> nat {
    le16(data, 44)
}

/// Whether the program headers have the usual sizes, and how many there are is known.
pub open spec fn has_usual_table(data: Seq<u8>) -> bool {
    le16(data, 40) == 52 && le16(data, 42) == 32 && 0 < header_count(data) < 0xffff
}

/// The range of flash that the file data of one program header fills, if it loads any.
///
/// The range starts at the physical address: initial values that startup code copies to SRAM are
/// stored in flash too. Only what the file holds is counted, not what is cleared at startup.
pub open spec fn load_range(data: Seq<u8>, header: int, flash_end: u32) -> Result<
    Option<Range<u32>>,
    Seq<char>,
> {
    let offset = le32(data, header + 4);
    let address = le32(data, header + 12);
    let file_size = le32(data, header + 16);
    let end = address + file_size;
    if le32(data, header) != 1 {
        Ok(None)
    } else if file_size > le32(data, header + 20) {
        Err("load segment file size exceeds memory size"@)
    } else if offset + file_size > data.len() {
        Err("truncated load segment"@)
    } else if file_size == 0 {
        Ok(None)
    } else if end > u32::MAX {
        Err("load address overflow"@)
    } else if address < FLASH_BASE || end > flash_end {
        Err(
            "load segment "@ + text::hex8(address) + "-"@ + text::hex8(end) + " is outside flash ("@
                + text::hex8(FLASH_BASE as nat) + "-"@ + text::hex8(flash_end as nat) + ")"@,
        )
    } else {
        Ok(Some(Range { start: address as u32, end: end as u32 }))
    }
}

/// The ranges of the first `n` program headers, or the first fault among them.
pub open spec fn load_ranges(data: Seq<u8>, n: nat, flash_end: u32) -> Result<
    Seq<Range<u32>>,
    Seq<char>,
>
    decreases n,
{
    if n == 0 {
        Ok(Seq::empty())
    } else {
        match load_ranges(data, (n - 1) as nat, flash_end) {
            Err(fault) => Err(fault),
            Ok(ranges) => match load_range(
                data,
                table_offset(data) + 32 * (n - 1),
                flash_end,
            ) {
                Err(fault) => Err(fault),
                Ok(None) => Ok(ranges),
                Ok(Some(range)) => Ok(ranges.push(range)),
            },
        }
    }
}

/// The ranges of flash that an ELF file fills, or what is wrong with the file.
pub open spec fn elf_image(data: Seq<u8>, flash_end: u32) -> Result<Seq<Range<u32>>, Seq<char>> {
    let table_end = table_offset(data) + 32 * header_count(data);
    let ranges = load_ranges(data, header_count(data), flash_end);
    if !is_elf32(data) {
        Err("expected a little-endian ELF32 image"@)
    } else if !is_arm_executable(data) {
        Err("expected an ARM executable ELF image"@)
    } else if !has_usual_table(data) {
        Err("unsupported ELF program header table"@)
    } else if table_end > usize::MAX {
        Err("program header table is too large"@)
    } else if table_end > data.len() {
        Err("truncated program header table"@)
    } else if ranges is Ok && ranges->Ok_0.len() == 0 {
        Err("image has no flash load data"@)
    } else {
        ranges
    }
}

/// Reads two bytes.
fn u16_at(data: &[u8], at: usize) -> (value: u16)
    requires
        at + 2 <= data@.len(),
    ensures
        value == le16(data@, at as int),
{
    data[at] as u16 + 0x100 * data[at + 1] as u16
}

/// Reads four bytes.
fn u32_at(data: &[u8], at: usize) -> (value: u32)
    requires
        at + 4 <= data@.len(),
    ensures
        value == le32(data@, at as int),
{
    let len: usize = data.len();
    assert(at + 4 <= len);
    u16_at(data, at) as u32 + 0x1_0000 * u16_at(data, at + 2) as u32
}

/// Reads one program header.
fn segment(data: &[u8], header: usize, flash_end: u32) -> (result: Result<
    Option<Range<u32>>,
    String,
>)
    requires
        header + 32 <= data@.len(),
    ensures
        match load_range(data@, header as int, flash_end) {
            Ok(range) => result == Ok::<Option<Range<u32>>, String>(range),
            Err(fault) => result is Err && result->Err_0@ == fault,
        },
{
    let len: usize = data.len();
    if u32_at(data, header) != 1 {
        return Ok(None);
    }
    let file_offset: u32 = u32_at(data, header + 4);
    let address: u32 = u32_at(data, header + 12);
    let file_size: u32 = u32_at(data, header + 16);
    let memory_size: u32 = u32_at(data, header + 20);
    if file_size > memory_size {
        return Err("load segment file size exceeds memory size".to_owned());
    }
    if file_offset as u64 + file_size as u64 > len as u64 {
        return Err("truncated load segment".to_owned());
    }
    if file_size == 0 {
        return Ok(None);
    }
    if address > u32::MAX - file_size {
        return Err("load address overflow".to_owned());
    }
    let end: u32 = address + file_size;
    if address < FLASH_BASE || end > flash_end {
        let mut fault = cat5(
            "load segment ",
            hex8_text(address as u64).as_str(),
            "-",
            hex8_text(end as u64).as_str(),
            " is outside flash (",
        );
        fault.append(hex8_text(FLASH_BASE as u64).as_str());
        fault.append("-");
        fault.append(hex8_text(flash_end as u64).as_str());
        fault.append(")");
        return Err(fault);
    }
    Ok(Some(address..end))
}

/// Whether a file starts as a little-endian 32-bit ELF file of the current version does.
fn starts_as_elf32(data: &[u8]) -> (result: bool)
    ensures
        result == is_elf32(data@),
{
    data.len() >= 52 && data[0] == 0x7f && data[1] == 0x45 && data[2] == 0x4c && data[3] == 0x46
        && data[4] == 1 && data[5] == 1 && data[6] == 1
}

/// Finds the ranges of flash that an ELF file fills.
pub fn elf_ranges(data: &[u8], flash_end: u32) -> (result: Result<Vec<Range<u32>>, String>)
    ensures
        match elf_image(data@, flash_end) {
            Ok(ranges) => result is Ok && result->Ok_0@ == ranges,
            Err(fault) => result is Err && result->Err_0@ == fault,
        },
{
    if !starts_as_elf32(data) {
        return Err("expected a little-endian ELF32 image".to_owned());
    }
    if u16_at(data, 16) != 2 || u16_at(data, 18) != 40 || u32_at(data, 20) != 1 {
        return Err("expected an ARM executable ELF image".to_owned());
    }
    let offset: u32 = u32_at(data, 28);
    let count: u16 = u16_at(data, 44);
    if u16_at(data, 40) != 52 || u16_at(data, 42) != 32 || count == 0 || count == 0xffff {
        return Err("unsupported ELF program header table".to_owned());
    }
    let len: usize = data.len();
    let table_end: u64 = offset as u64 + 32 * count as u64;
    if table_end > usize::MAX as u64 {
        return Err("program header table is too large".to_owned());
    }
    if table_end > len as u64 {
        return Err("truncated program header table".to_owned());
    }
    let mut ranges: Vec<Range<u32>> = Vec::new();
    let mut index: u16 = 0;
    while index < count
        invariant
            index <= count,
            len == data@.len(),
            is_elf32(data@),
            is_arm_executable(data@),
            has_usual_table(data@),
            count == header_count(data@),
            offset == table_offset(data@),
            offset + 32 * count <= len,
            load_ranges(data@, index as nat, flash_end) == Ok::<Seq<Range<u32>>, Seq<char>>(
                ranges@,
            ),
        decreases count - index,
    {
        let found = segment(data, offset as usize + 32 * index as usize, flash_end);
        proof {
            if found is Err {
                lemma_fault_stays(data@, (index + 1) as nat, count as nat, flash_end);
            }
        }
        if let Some(range) = found? {
            ranges.push(range);
        }
        index = index + 1;
    }
    if ranges.len() == 0 {
        return Err("image has no flash load data".to_owned());
    }
    Ok(ranges)
}

/// The first fault decides.
proof fn lemma_fault_stays(data: Seq<u8>, n: nat, m: nat, flash_end: u32)
    requires
        n <= m,
        load_ranges(data, n, flash_end) is Err,
    ensures
        load_ranges(data, m, flash_end) == load_ranges(data, n, flash_end),
    decreases m,
{
    if n < m {
        lemma_fault_stays(data, n, (m - 1) as nat, flash_end);
    }
}

/// Ranges inside flash that hold something.
pub open spec fn lie_in_flash(ranges: Seq<Range<u32>>, flash_end: u32) -> bool {
    forall|i: int|
        0 <= i < ranges.len() ==> FLASH_BASE <= (#[trigger] ranges[i]).start && ranges[i].start
            < ranges[i].end && ranges[i].end <= flash_end
}

/// The ranges of an ELF file that is accepted lie in flash and hold something.
pub proof fn law_load_ranges_lie_in_flash(data: Seq<u8>, flash_end: u32)
    ensures
        elf_image(data, flash_end) matches Ok(ranges) ==> ranges.len() > 0 && lie_in_flash(
            ranges,
            flash_end,
        ),
{
    lemma_load_ranges_lie_in_flash(data, header_count(data), flash_end);
}

/// The ranges of the first program headers lie in flash.
proof fn lemma_load_ranges_lie_in_flash(data: Seq<u8>, n: nat, flash_end: u32)
    ensures
        load_ranges(data, n, flash_end) matches Ok(ranges) ==> lie_in_flash(ranges, flash_end),
    decreases n,
{
    if n > 0 {
        lemma_load_ranges_lie_in_flash(data, (n - 1) as nat, flash_end);
    }
}

/// The number in the two bytes from `at`, of which the first counts least.
pub open spec fn half_at(data: Seq<u8>, at: int) -> int {
    data[at] + 256 * data[at + 1]
}

/// The number in the four bytes from `at`, of which the first counts least.
pub open spec fn word_at(data: Seq<u8>, at: int) -> int {
    data[at] + 256 * data[at + 1] + 65_536 * data[at + 2] + 16_777_216 * data[at + 3]
}

/// Where program header `h` starts.
pub open spec fn header_at(data: Seq<u8>, h: int) -> int {
    word_at(data, 28) + 32 * h
}

/// Whether program header `h` loads bytes of the file to a range of physical addresses.
pub open spec fn header_loads(data: Seq<u8>, h: int, range: Range<u32>) -> bool {
    let at = header_at(data, h);
    &&& 0 <= h < half_at(data, 44)
    &&& word_at(data, at) == 1
    &&& word_at(data, at + 16) > 0
    &&& range.start == word_at(data, at + 12)
    &&& range.end == word_at(data, at + 12) + word_at(data, at + 16)
}

/// Whether some program header loads bytes of the file to a range of physical addresses.
pub open spec fn loads(data: Seq<u8>, range: Range<u32>) -> bool {
    exists|h: int| header_loads(data, h, range)
}

/// Whether what program header `h` loads is in the file, fits in memory, and goes to flash.
pub open spec fn header_is_sound(data: Seq<u8>, h: int, flash_end: u32) -> bool {
    let at = header_at(data, h);
    let size = word_at(data, at + 16);
    word_at(data, at) == 1 ==> {
        &&& size <= word_at(data, at + 20)
        &&& word_at(data, at + 4) + size <= data.len()
        &&& size > 0 ==> 0x40_0000 <= word_at(data, at + 12) && word_at(data, at + 12) + size
            <= flash_end
    }
}

/// What the first `n` program headers load.
proof fn lemma_load_ranges(data: Seq<u8>, n: nat, flash_end: u32)
    requires
        n <= header_count(data),
    ensures
        match load_ranges(data, n, flash_end) {
            Ok(ranges) => {
                &&& forall|h: int| 0 <= h < n ==> #[trigger] header_is_sound(data, h, flash_end)
                &&& forall|range: Range<u32>| #[trigger]
                    ranges.contains(range) ==> exists|h: int|
                        h < n && #[trigger] header_loads(data, h, range)
                &&& forall|h: int, range: Range<u32>|
                    h < n && #[trigger] header_loads(data, h, range) ==> ranges.contains(range)
            },
            Err(_) => exists|h: int| 0 <= h < n && !#[trigger] header_is_sound(data, h, flash_end),
        },
    decreases n,
{
    if n > 0 {
        let m = (n - 1) as nat;
        lemma_load_ranges(data, m, flash_end);
        let at = header_at(data, m as int);
        assert(at == table_offset(data) + 32 * m);
        match load_ranges(data, m, flash_end) {
            Err(_) => {
                let h = choose|h: int|
                    0 <= h < m && !#[trigger] header_is_sound(data, h, flash_end);
                assert(!header_is_sound(data, h, flash_end));
            },
            Ok(front) => {
                match load_range(data, at, flash_end) {
                    Err(_) => {
                        assert(!header_is_sound(data, m as int, flash_end));
                    },
                    Ok(last) => {
                        let ranges = load_ranges(data, n, flash_end)->Ok_0;
                        assert(header_is_sound(data, m as int, flash_end));
                        assert forall|range: Range<u32>| #[trigger]
                            ranges.contains(range) implies exists|h: int|
                            h < n && #[trigger] header_loads(data, h, range) by {
                            let i = ranges.index_of(range);
                            if i < front.len() {
                                assert(front[i] == range);
                                assert(front.contains(range));
                                let h = choose|h: int|
                                    h < m && #[trigger] header_loads(data, h, range);
                                assert(header_loads(data, h, range));
                            } else {
                                assert(header_loads(data, m as int, range));
                            }
                        }
                        assert forall|h: int, range: Range<u32>|
                            h < n && #[trigger] header_loads(data, h, range) implies ranges.contains(
                            range,
                        ) by {
                            if h < m {
                                assert(front.contains(range));
                                let i = front.index_of(range);
                                assert(ranges[i] == range);
                            } else {
                                assert(last == Some(range));
                                assert(ranges[front.len() as int] == range);
                            }
                        }
                    },
                }
            },
        }
    }
}

/// Whether a file starts with the header of an executable for ARM in a little-endian ELF32 file, the
/// program headers are in the file, and all that they load is sound and not nothing.
pub open spec fn is_loadable(data: Seq<u8>, flash_end: u32) -> bool {
    &&& data.len() >= 52
    &&& data.take(7) == seq![0x7fu8, 0x45u8, 0x4cu8, 0x46u8, 1u8, 1u8, 1u8]
    &&& half_at(data, 16) == 2
    &&& half_at(data, 18) == 40
    &&& word_at(data, 20) == 1
    &&& half_at(data, 40) == 52
    &&& half_at(data, 42) == 32
    &&& 0 < half_at(data, 44) < 0xffff
    &&& header_at(data, half_at(data, 44)) <= data.len()
    &&& forall|h: int|
        0 <= h < half_at(data, 44) ==> #[trigger] header_is_sound(data, h, flash_end)
    &&& exists|range: Range<u32>| loads(data, range)
}

/// An ELF file is accepted exactly where it can be loaded, and then its ranges are those to which its
/// program headers load bytes of the file, by physical address.
pub proof fn law_elf_ranges_are_what_is_loaded(data: Seq<u8>, flash_end: u32)
    requires
        data.len() <= usize::MAX,
    ensures
        match elf_image(data, flash_end) {
            Ok(ranges) => {
                &&& is_loadable(data, flash_end)
                &&& forall|range: Range<u32>| ranges.contains(range) <==> loads(data, range)
            },
            Err(_) => !is_loadable(data, flash_end),
        },
{
    let n = header_count(data);
    lemma_load_ranges(data, n, flash_end);
    assert(header_at(data, n as int) == table_offset(data) + 32 * n);
    let start = seq![0x7fu8, 0x45u8, 0x4cu8, 0x46u8, 1u8, 1u8, 1u8];
    if is_elf32(data) {
        assert(data.take(7) =~= start);
    } else if data.len() >= 52 && data.take(7) == start {
        assert(data.take(7)[0] == data[0]);
        assert(data.take(7)[1] == data[1]);
        assert(data.take(7)[2] == data[2]);
        assert(data.take(7)[3] == data[3]);
        assert(data.take(7)[4] == data[4]);
        assert(data.take(7)[5] == data[5]);
        assert(data.take(7)[6] == data[6]);
    }
    if let Ok(ranges) = load_ranges(data, n, flash_end) {
        assert forall|range: Range<u32>| ranges.contains(range) implies loads(data, range) by {
            let h = choose|h: int| h < n && #[trigger] header_loads(data, h, range);
            assert(header_loads(data, h, range));
        }
        if ranges.len() > 0 {
            assert(ranges.contains(ranges[0]));
            assert(loads(data, ranges[0]));
        }
        assert forall|range: Range<u32>| loads(data, range) implies ranges.contains(range) by {
            let h = choose|h: int| header_loads(data, h, range);
            assert(h < n);
        }
    } else {
        let h = choose|h: int| 0 <= h < n && !#[trigger] header_is_sound(data, h, flash_end);
        assert(!header_is_sound(data, h, flash_end));
    }
}

} // verus!
