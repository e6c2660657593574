//! What the commands for OpenOCD name: the numbers and files in them, read back from their words.
use crate::commands;
use crate::image;
use crate::image::{ImageFormat, Part};
use crate::number;
use crate::session;
use crate::target::{ChipInfo, FLASH_BASE};
use crate::tcl;
use crate::text;
use std::ops::Range;
use vstd::prelude::*;

verus! {

/// Whether a text is one word.
pub open spec fn is_word(s: Seq<char>) -> bool {
    s.len() > 0 && forall|i: int| 0 <= i < s.len() ==> !text::white_space(#[trigger] s[i])
}

/// Whether a text is one word that is read as a number.
pub open spec fn reads_as(word: Seq<char>, n: nat) -> bool {
    is_word(word) && number::number(word) == Ok::<nat, Seq<char>>(n)
}

/// Whether a command is some words, a first address and a length in bytes.
pub open spec fn names_span(tcl: Seq<char>, head: Seq<char>, first: nat, length: nat) -> bool {
    exists|a: Seq<char>, n: Seq<char>|
        tcl == head + a + " "@ + n && #[trigger] reads_as(a, first) && #[trigger] reads_as(
            n,
            length,
        )
}

/// Whether a command is some words, a quoted path, an address and the name of a format.
pub open spec fn names_file(
    tcl: Seq<char>,
    head: Seq<char>,
    path: Seq<char>,
    address: nat,
    format: Seq<char>,
) -> bool {
    exists|a: Seq<char>|
        tcl == head + tcl::literal(path) + " "@ + a + " "@ + format && #[trigger] reads_as(
            a,
            address,
        )
}

/// Whether a command erases the sectors of so many bytes from an address on, for a write.
pub open spec fn erases(tcl: Seq<char>, first: nat, length: nat) -> bool {
    names_span(tcl, "flash erase_address pad unlock "@, first, length)
}

/// Whether a command erases so many bytes from an address on, and no others.
pub open spec fn erases_exactly(tcl: Seq<char>, first: nat, length: nat) -> bool {
    names_span(tcl, "flash erase_address "@, first, length)
}

/// Whether a command writes a file at an address. For an ELF file the address is added to those in
/// the file.
pub open spec fn writes(tcl: Seq<char>, path: Seq<char>, address: nat, format: Seq<char>) -> bool {
    names_file(tcl, "flash write_image unlock "@, path, address, format)
}

/// Whether a command erases what a file needs, and writes the file at an address.
pub open spec fn erases_and_writes(
    tcl: Seq<char>,
    path: Seq<char>,
    address: nat,
    format: Seq<char>,
) -> bool {
    names_file(tcl, "flash write_image erase unlock "@, path, address, format)
}

/// Whether a command compares a file with flash at an address.
pub open spec fn verifies(tcl: Seq<char>, path: Seq<char>, address: nat, format: Seq<char>) -> bool {
    names_file(tcl, "verify_image "@, path, address, format)
}

/// Whether a command saves so many bytes from an address on in a file.
pub open spec fn saves(tcl: Seq<char>, path: Seq<char>, first: nat, length: nat) -> bool {
    names_span(tcl, "dump_image "@ + tcl::literal(path) + " "@, first, length)
}

/// Whether a request asks for so many values of a width from an address on.
pub open spec fn requests_memory(script: Seq<char>, first: nat, width: nat, count: nat) -> bool {
    exists|a: Seq<char>, w: Seq<char>, n: Seq<char>|
        script == "read_memory "@ + a + " "@ + w + " "@ + n && #[trigger] reads_as(a, first)
            && #[trigger] reads_as(w, width) && #[trigger] reads_as(n, count)
}

/// Whether a command sets or clears a GPNVM bit.
pub open spec fn turns(tcl: Seq<char>, bit: nat, on: bool) -> bool {
    exists|b: Seq<char>|
        tcl == "at91sam4 gpnvm "@ + (if on {
            "set "@
        } else {
            "clear "@
        }) + b && #[trigger] reads_as(b, bit)
}

/// Digits are a word.
proof fn lemma_digits_are_a_word(n: nat, radix: nat)
    requires
        2 <= radix <= 16,
    ensures
        is_word(text::digits(n, radix)),
{
    number::lemma_digits(n, radix);
    let s = text::digits(n, radix);
    assert forall|i: int| 0 <= i < s.len() implies !text::white_space(#[trigger] s[i]) by {
        let c = s[i];
        assert('0' <= c <= '9' || 'a' <= c <= 'f');
    }
}

/// A number in hexadecimal is a word that is read as the number.
pub proof fn law_hex_is_a_word(n: u64)
    ensures
        reads_as(text::hex(n as nat), n as nat),
{
    reveal_strlit("0x");
    lemma_digits_are_a_word(n as nat, 16);
    number::law_printed_hex_is_read_back(n);
    let s = text::hex(n as nat);
    let d = text::digits(n as nat, 16);
    assert forall|i: int| 0 <= i < s.len() implies !text::white_space(#[trigger] s[i]) by {
        if i >= 2 {
            assert(s[i] == d[i - 2]);
        }
    }
}

/// A number in decimal is a word that is read as the number.
pub proof fn law_decimal_is_a_word(n: u64)
    ensures
        reads_as(text::decimal(n as nat), n as nat),
{
    lemma_digits_are_a_word(n as nat, 10);
    number::law_printed_decimal_is_read_back(n);
}

/// A space is white space, so that a word ends before it.
proof fn lemma_space()
    ensures
        " "@ =~= seq![' '],
        text::white_space(' '),
{
    reveal_strlit(" ");
}

/// A word and what follows a space behind it are found in a text in one way.
proof fn lemma_split(a: Seq<char>, x: Seq<char>, b: Seq<char>, y: Seq<char>)
    requires
        is_word(a),
        is_word(b),
        a + " "@ + x == b + " "@ + y,
    ensures
        a == b,
        x == y,
{
    lemma_space();
    let s = a + " "@ + x;
    let r = b + " "@ + y;
    assert(s[a.len() as int] == ' ');
    assert(r[b.len() as int] == ' ');
    if a.len() < b.len() {
        assert(r[a.len() as int] == b[a.len() as int]);
    }
    if b.len() < a.len() {
        assert(s[b.len() as int] == a[b.len() as int]);
    }
    assert(a =~= s.take(a.len() as int));
    assert(b =~= r.take(a.len() as int));
    assert(x =~= s.skip(a.len() as int + 1));
    assert(y =~= r.skip(a.len() as int + 1));
}

/// A command names one address and one length: the same command never stands for two spans.
pub proof fn law_span_is_named_in_one_way(
    tcl: Seq<char>,
    head: Seq<char>,
    first: nat,
    length: nat,
    other_first: nat,
    other_length: nat,
)
    requires
        names_span(tcl, head, first, length),
        names_span(tcl, head, other_first, other_length),
    ensures
        first == other_first,
        length == other_length,
{
    let (a, n) = choose|a: Seq<char>, n: Seq<char>|
        tcl == head + a + " "@ + n && #[trigger] reads_as(a, first) && #[trigger] reads_as(
            n,
            length,
        );
    let (b, m) = choose|b: Seq<char>, m: Seq<char>|
        tcl == head + b + " "@ + m && #[trigger] reads_as(b, other_first) && #[trigger] reads_as(
            m,
            other_length,
        );
    let rest = a + " "@ + n;
    let other = b + " "@ + m;
    assert(head + a + " "@ + n =~= head + rest);
    assert(head + b + " "@ + m =~= head + other);
    assert((head + rest).skip(head.len() as int) =~= rest);
    assert((head + other).skip(head.len() as int) =~= other);
    lemma_split(a, n, b, m);
}

/// The command that erases a range names its first address, and the length up to its end.
pub proof fn law_erase_command_names_its_range(range: Range<u32>)
    requires
        range.start <= range.end,
    ensures
        erases(
            image::erase_command(range),
            range.start as nat,
            (range.end - range.start) as nat,
        ),
{
    let first = text::hex(range.start as nat);
    let length = text::hex((range.end - range.start) as nat);
    law_hex_is_a_word(range.start as u64);
    law_hex_is_a_word((range.end - range.start) as u64);
    assert(reads_as(first, range.start as nat));
    assert(reads_as(length, (range.end - range.start) as nat));
    assert(image::erase_command(range) =~= "flash erase_address pad unlock "@ + first + " "@
        + length);
}

/// What OpenOCD calls the format of a part.
pub open spec fn format_name(format: ImageFormat) -> Seq<char> {
    match format {
        ImageFormat::Elf => "elf"@,
        _ => "bin"@,
    }
}

/// The file that holds the bytes of a part.
pub open spec fn file_of(part: Part) -> Seq<char> {
    if part.staged is Some {
        part.staged->0
    } else {
        part.file
    }
}

/// The commands for a part name the file that holds its bytes, its address and its format.
pub proof fn law_part_commands_name_the_part(part: Part)
    ensures
        writes(
            part.write_command(false),
            file_of(part),
            part.addr as nat,
            format_name(part.format),
        ),
        erases_and_writes(
            part.write_command(true),
            file_of(part),
            part.addr as nat,
            format_name(part.format),
        ),
        verifies(
            part.verify_command(),
            file_of(part),
            part.addr as nat,
            format_name(part.format),
        ),
{
    let a = text::hex(part.addr as nat);
    let quoted = tcl::literal(file_of(part));
    let kind = format_name(part.format);
    law_hex_is_a_word(part.addr as u64);
    assert(reads_as(a, part.addr as nat));
    reveal_strlit("");
    reveal_strlit(" unlock ");
    reveal_strlit(" erase");
    reveal_strlit("flash write_image");
    reveal_strlit("flash write_image unlock ");
    reveal_strlit("flash write_image erase unlock ");
    assert("flash write_image"@ + ""@ + " unlock "@ =~= "flash write_image unlock "@);
    assert("flash write_image"@ + " erase"@ + " unlock "@ =~= "flash write_image erase unlock "@);
    assert(part.write_command(false) =~= "flash write_image unlock "@ + quoted + " "@ + a + " "@
        + kind);
    assert(part.write_command(true) =~= "flash write_image erase unlock "@ + quoted + " "@ + a
        + " "@ + kind);
    assert(part.verify_command() =~= "verify_image "@ + quoted + " "@ + a + " "@ + kind);
}

/// The command that saves memory names the file, the first address and the length.
pub proof fn law_dump_command_names_its_range(path: Seq<char>, address: u32, length: u64)
    ensures
        saves(
            commands::dump_command(path, address, length as nat),
            path,
            address as nat,
            length as nat,
        ),
{
    let a = text::hex(address as nat);
    let n = text::hex(length as nat);
    law_hex_is_a_word(address as u64);
    law_hex_is_a_word(length);
    assert(reads_as(a, address as nat));
    assert(reads_as(n, length as nat));
    assert(commands::dump_command(path, address, length as nat) =~= ("dump_image "@ + tcl::literal(
        path,
    ) + " "@) + a + " "@ + n);
}

/// Saving two ranges in one file takes two commands: no two ranges are saved by the same command.
pub proof fn law_dump_commands_differ(
    path: Seq<char>,
    address: u32,
    length: u64,
    other_address: u32,
    other_length: u64,
)
    requires
        commands::dump_command(path, address, length as nat) == commands::dump_command(
            path,
            other_address,
            other_length as nat,
        ),
    ensures
        address == other_address,
        length == other_length,
{
    law_dump_command_names_its_range(path, address, length);
    law_dump_command_names_its_range(path, other_address, other_length);
    law_span_is_named_in_one_way(
        commands::dump_command(path, address, length as nat),
        "dump_image "@ + tcl::literal(path) + " "@,
        address as nat,
        length as nat,
        other_address as nat,
        other_length as nat,
    );
}

/// The request for memory names the first address, the width and the number of the values.
pub proof fn law_memory_request_names_its_values(address: u32, width: u64, count: u64)
    ensures
        requests_memory(
            session::memory_request(address, width as nat, count as nat),
            address as nat,
            width as nat,
            count as nat,
        ),
{
    let a = text::hex(address as nat);
    let w = text::decimal(width as nat);
    let n = text::decimal(count as nat);
    law_hex_is_a_word(address as u64);
    law_decimal_is_a_word(width);
    law_decimal_is_a_word(count);
    assert(reads_as(a, address as nat));
    assert(reads_as(w, width as nat));
    assert(reads_as(n, count as nat));
}

/// The command that changes a GPNVM bit names the bit, and sets it for 1 and clears it for 0.
pub proof fn law_gpnvm_command_names_its_bit(bit: u8, value: u8)
    requires
        value <= 1,
    ensures
        turns(commands::gpnvm_command(bit, value), bit as nat, value == 1),
{
    let b = text::decimal(bit as nat);
    law_decimal_is_a_word(bit as u64);
    assert(reads_as(b, bit as nat));
    reveal_strlit("set");
    reveal_strlit("clear");
    reveal_strlit(" ");
    reveal_strlit("set ");
    reveal_strlit("clear ");
    assert("set"@ + " "@ =~= "set "@);
    assert("clear"@ + " "@ =~= "clear "@);
    assert(commands::gpnvm_command(bit, value) =~= "at91sam4 gpnvm "@ + (if value == 1 {
        "set "@
    } else {
        "clear "@
    }) + b);
}

/// The address that the user names: a number below the start of flash is an offset from there.
pub open spec fn named_address(given: Option<Seq<char>>, missing: nat) -> nat {
    match given {
        None => missing,
        Some(given) => match number::number(given) {
            Err(_) => missing,
            Ok(n) => if n < 0x40_0000 {
                n + 0x40_0000
            } else {
                n
            },
        },
    }
}

/// An address that is accepted is the one that the user names.
pub proof fn law_given_address_is_the_named_one(given: Option<Seq<char>>)
    ensures
        commands::given_address(given) matches Ok(address) ==> {
            &&& address is None <==> given is None
            &&& address matches Some(address) ==> address as nat == named_address(given, 0)
                && number::number(given->0) is Ok
        },
{
}

/// An erase of a range on a chip names the start of the range, or of flash, and the length up to its
/// end, or that of flash: no address outside of the range is named, and the range lies in flash.
/// Without a range, all flash is erased.
pub proof fn law_erasure_names_its_range(start: Option<u32>, end: Option<u32>, chip: ChipInfo)
    requires
        chip.flash.wf(),
    ensures
        commands::erasure(start, end, chip) matches Ok(erasure) ==> {
            let flash_end = (0x40_0000 + chip.flash.size) as nat;
            let first = if start is Some {
                start->0 as nat
            } else {
                0x40_0000
            };
            let last = if end is Some {
                end->0 as nat
            } else {
                flash_end
            };
            if start is None && end is None {
                erasure.command == "flash erase_sector 0 0 last"@
            } else {
                0x40_0000 <= first < last <= flash_end && erases_exactly(
                    erasure.command,
                    first,
                    (last - first) as nat,
                )
            }
        },
{
    if let Ok(erasure) = commands::erasure(start, end, chip) {
        let flash_end = commands::end_of_flash(chip);
        let first: u32 = if start is Some {
            start->0
        } else {
            FLASH_BASE
        };
        let last: u32 = if end is Some {
            end->0
        } else {
            flash_end
        };
        if !(start is None && end is None) {
            let a = text::hex(first as nat);
            let n = text::hex((last - first) as nat);
            law_hex_is_a_word(first as u64);
            law_hex_is_a_word((last - first) as u64);
            assert(reads_as(a, first as nat));
            assert(reads_as(n, (last - first) as nat));
            assert(erasure.command =~= "flash erase_address "@ + a + " "@ + n);
        }
    }
}

/// Whether a command writes one word of 32 bits to an address.
pub open spec fn stores(tcl: Seq<char>, address: nat, word: nat) -> bool {
    exists|a: Seq<char>, w: Seq<char>|
        #[trigger] reads_as(a, address) && #[trigger] reads_as(w, word) && tcl == "write_memory "@
            + a + " 32 {"@ + w + "}"@
}

/// The command that writes one word names its address and the word.
pub proof fn law_write_request_names_its_word(address: u32, word: u32)
    ensures
        stores(session::write_request(address, seq![word]), address as nat, word as nat),
{
    let a = text::hex(address as nat);
    let w = text::hex(word as nat);
    law_hex_is_a_word(address as u64);
    law_hex_is_a_word(word as u64);
    assert(reads_as(a, address as nat));
    assert(reads_as(w, word as nat));
    let list = session::hex_words(seq![word]);
    assert(list =~= seq![w]);
    assert(text::joined(list, " "@) == w);
}

/// A number of fewer than `n` digits is below the power of the radix.
proof fn lemma_digit_count(n: nat, count: nat)
    requires
        count > 0,
        n < vstd::arithmetic::power::pow(16, count),
    ensures
        text::digits(n, 16).len() <= count,
    decreases count,
{
    reveal(vstd::arithmetic::power::pow);
    if n >= 16 {
        if count == 1 {
            assert(vstd::arithmetic::power::pow(16, 1) == 16) by {
                reveal_with_fuel(vstd::arithmetic::power::pow, 2);
            }
        } else {
            let less = (count - 1) as nat;
            assert(vstd::arithmetic::power::pow(16, count) == 16 * vstd::arithmetic::power::pow(
                16,
                less,
            ));
            assert(n / 16 < vstd::arithmetic::power::pow(16, less));
            lemma_digit_count(n / 16, less);
        }
    }
}

/// An address in messages has ten characters: the prefix and eight digits.
pub proof fn law_hex8_has_ten_characters(address: u32)
    ensures
        text::hex8(address as nat).len() == 10,
{
    reveal_strlit("0x");
    assert(vstd::arithmetic::power::pow(16, 8) == 0x1_0000_0000) by {
        reveal_with_fuel(vstd::arithmetic::power::pow, 9);
    }
    lemma_digit_count(address as nat, 8);
}

} // verus!
