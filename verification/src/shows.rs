//! What holds of the texts that are shown.
use vstd::prelude::*;

use crate::commands;
use crate::dump;
use crate::flash;
use crate::image;
use crate::image::Part;
use crate::number;
use crate::openocd::OpenOcdOptions;
use crate::outcomes;
use crate::promises;
use crate::promises::Reach;
use crate::session;
use crate::target;
use crate::target::{ChipInfo, Gpnvm};
use crate::text;
use crate::walk;
use crate::walk::{Request, Trail};
use crate::wording;
use core::ops::Range;

verus! {

/// What stands in a text stands in it with more behind it.
proof fn lemma_more(s: Seq<char>, more: Seq<char>)
    ensures
        forall|part: Seq<char>| text::occurs(s, part) ==> #[trigger] text::occurs(s + more, part),
{
    assert forall|part: Seq<char>| text::occurs(s, part) implies #[trigger] text::occurs(
        s + more,
        part,
    ) by {
        let i = choose|i: int| text::occurs_at(s, part, i);
        assert((s + more).subrange(i, i + part.len()) =~= s.subrange(i, i + part.len()));
        assert(text::occurs_at(s + more, part, i));
    }
}

/// A text that ends with a part holds it.
proof fn lemma_end(front: Seq<char>, part: Seq<char>)
    ensures
        text::occurs(front + part, part),
{
    let s = front + part;
    assert(s.subrange(front.len() as int, s.len() as int) =~= part);
    assert(text::occurs_at(s, part, front.len() as int));
}

/// What is shown of the chip: its identity, where its flash begins and ends, in how many pages and
/// lock regions, and the state of the target, the transport and the speed.
pub proof fn law_info_tells_the_chip(
    chip: ChipInfo,
    bits: Gpnvm,
    state: Seq<char>,
    options: OpenOcdOptions,
)
    ensures
        ({
            let info = commands::info_text(chip, bits, state, options);
            let flash = chip.flash;
            &&& text::occurs(info, "\n  CHIPID        CIDR="@ + text::hex8(chip.cidr as nat))
            &&& text::occurs(info, " EXID="@ + text::hex8(chip.exid as nat))
            &&& text::occurs(
                info,
                "\n  Flash         "@ + text::decimal((flash.size as int / 1024) as nat),
            )
            &&& text::occurs(
                info,
                text::hex8(0x40_0000) + "-"@ + text::hex8((0x40_0000 + flash.size - 1) as nat),
            )
            &&& text::occurs(
                info,
                " ("@ + text::decimal((flash.size as int / flash.page_size as int) as nat)
                    + " pages x "@ + text::decimal(flash.page_size as nat) + " B)"@,
            )
            &&& text::occurs(
                info,
                "\n  Lock regions  "@ + text::decimal(flash.lock_regions as nat) + " x "@
                    + text::decimal((flash.lock_size as int / 1024) as nat) + " KB"@,
            )
            &&& text::occurs(
                info,
                "\n  SRAM          "@ + text::decimal(target::sram_size_kb(chip.cidr) as nat)
                    + " KB at "@ + text::hex8(0x2000_0000),
            )
            &&& text::occurs(info, "\n  Core          Cortex-M4, "@ + state)
            &&& text::occurs(
                info,
                "\n  Link          "@ + options.transport.title() + " @ "@ + text::decimal(
                    options.speed as nat,
                ) + " kHz"@,
            )
            &&& text::occurs(info, target::gpnvm_text(bits))
        }),
{
    let flash = chip.flash;
    let a0 = "SAM4E\n  Part          "@ + target::chip_name(chip.exid);
    let a1 = a0 + "\n  CHIPID        CIDR="@;
    let a2 = a1 + text::hex8(chip.cidr as nat);
    let a3 = a2 + " EXID="@;
    let a4 = a3 + text::hex8(chip.exid as nat);
    let a5 = a4 + "\n  Flash         "@;
    let a6 = a5 + text::decimal((flash.size as int / 1024) as nat);
    let a7 = a6 + " KB, "@;
    let a8 = a7 + text::hex8(0x40_0000);
    let a9 = a8 + "-"@;
    let b0 = a9 + text::hex8((0x40_0000 + flash.size - 1) as nat);
    let b1 = b0 + " ("@;
    let b2 = b1 + text::decimal((flash.size as int / flash.page_size as int) as nat);
    let b3 = b2 + " pages x "@;
    let b4 = b3 + text::decimal(flash.page_size as nat);
    let rest = " B)\n  Lock regions  "@;
    let b5 = b4 + rest;
    let b6 = b5 + text::decimal(flash.lock_regions as nat);
    let b7 = b6 + " x "@;
    let b8 = b7 + text::decimal((flash.lock_size as int / 1024) as nat);
    let next = " KB\n  SRAM          "@;
    let b9 = b8 + next;
    let c0 = b9 + text::decimal(target::sram_size_kb(chip.cidr) as nat);
    let c1 = c0 + " KB at "@;
    let c2 = c1 + text::hex8(0x2000_0000);
    let c3 = c2 + "\n  Core          Cortex-M4, "@;
    let c4 = c3 + state;
    let c5 = c4 + "\n  Link          "@;
    let c6 = c5 + options.transport.title();
    let c7 = c6 + " @ "@;
    let c8 = c7 + text::decimal(options.speed as nat);
    let last = " kHz via Atmel-ICE"@;
    let c9 = c8 + last;
    let d0 = c9 + commands::flash_note(chip);
    let d1 = d0 + "\n"@;
    let d2 = d1 + target::gpnvm_text(bits);
    assert(commands::info_text(chip, bits, state, options) == d2);
    reveal_strlit(" B)");
    reveal_strlit("\n  Lock regions  ");
    reveal_strlit(" B)\n  Lock regions  ");
    reveal_strlit(" KB");
    reveal_strlit("\n  SRAM          ");
    reveal_strlit(" KB\n  SRAM          ");
    reveal_strlit(" kHz");
    reveal_strlit(" via Atmel-ICE");
    reveal_strlit(" kHz via Atmel-ICE");
    assert(rest =~= " B)"@ + "\n  Lock regions  "@);
    assert(next =~= " KB"@ + "\n  SRAM          "@);
    assert(last =~= " kHz"@ + " via Atmel-ICE"@);
    lemma_more(d1, target::gpnvm_text(bits));
    lemma_more(d0, "\n"@);
    lemma_more(c9, commands::flash_note(chip));
    lemma_end(d1, target::gpnvm_text(bits));

    let link = "\n  Link          "@ + options.transport.title() + " @ "@ + text::decimal(
        options.speed as nat,
    ) + " kHz"@;
    assert(c9 =~= c4 + link + " via Atmel-ICE"@);
    lemma_end(c4, link);
    lemma_more(c4 + link, " via Atmel-ICE"@);
    assert(text::occurs(c9, link));

    lemma_more(c8, last);
    lemma_more(c7, text::decimal(options.speed as nat));
    lemma_more(c6, " @ "@);
    lemma_more(c5, options.transport.title());
    lemma_more(c4, "\n  Link          "@);
    let core = "\n  Core          Cortex-M4, "@ + state;
    assert(c4 =~= c2 + core);
    lemma_end(c2, core);

    lemma_more(c3, state);
    lemma_more(c2, "\n  Core          Cortex-M4, "@);
    let sram = "\n  SRAM          "@ + text::decimal(target::sram_size_kb(chip.cidr) as nat)
        + " KB at "@ + text::hex8(0x2000_0000);
    assert(c2 =~= b8 + " KB"@ + sram);
    lemma_end(b8 + " KB"@, sram);

    lemma_more(c1, text::hex8(0x2000_0000));
    lemma_more(c0, " KB at "@);
    lemma_more(b9, text::decimal(target::sram_size_kb(chip.cidr) as nat));
    let locks = "\n  Lock regions  "@ + text::decimal(flash.lock_regions as nat) + " x "@
        + text::decimal((flash.lock_size as int / 1024) as nat) + " KB"@;
    assert(b9 =~= b4 + " B)"@ + locks + "\n  SRAM          "@);
    lemma_end(b4 + " B)"@, locks);
    lemma_more(b4 + " B)"@ + locks, "\n  SRAM          "@);
    assert(text::occurs(b9, locks));

    lemma_more(b8, next);
    lemma_more(b7, text::decimal((flash.lock_size as int / 1024) as nat));
    lemma_more(b6, " x "@);
    lemma_more(b5, text::decimal(flash.lock_regions as nat));
    let pages = " ("@ + text::decimal((flash.size as int / flash.page_size as int) as nat)
        + " pages x "@ + text::decimal(flash.page_size as nat) + " B)"@;
    assert(b5 =~= b0 + pages + "\n  Lock regions  "@);
    lemma_end(b0, pages);
    lemma_more(b0 + pages, "\n  Lock regions  "@);
    assert(text::occurs(b5, pages));

    lemma_more(b4, rest);
    lemma_more(b3, text::decimal(flash.page_size as nat));
    lemma_more(b2, " pages x "@);
    lemma_more(b1, text::decimal((flash.size as int / flash.page_size as int) as nat));
    lemma_more(b0, " ("@);
    let span = text::hex8(0x40_0000) + "-"@ + text::hex8((0x40_0000 + flash.size - 1) as nat);
    assert(b0 =~= a7 + span);
    lemma_end(a7, span);

    lemma_more(a9, text::hex8((0x40_0000 + flash.size - 1) as nat));
    lemma_more(a8, "-"@);
    lemma_more(a7, text::hex8(0x40_0000));
    lemma_more(a6, " KB, "@);
    let size = "\n  Flash         "@ + text::decimal((flash.size as int / 1024) as nat);
    assert(a6 =~= a4 + size);
    lemma_end(a4, size);

    lemma_more(a5, text::decimal((flash.size as int / 1024) as nat));
    lemma_more(a4, "\n  Flash         "@);
    let exid = " EXID="@ + text::hex8(chip.exid as nat);
    assert(a4 =~= a2 + exid);
    lemma_end(a2, exid);

    lemma_more(a3, text::hex8(chip.exid as nat));
    lemma_more(a2, " EXID="@);
    let cidr = "\n  CHIPID        CIDR="@ + text::hex8(chip.cidr as nat);
    assert(a2 =~= a0 + cidr);
    lemma_end(a0, cidr);
}

/// Pieces of two characters with a space between each two stand at every third place.
proof fn lemma_pairs(pieces: Seq<Seq<char>>, k: int)
    requires
        forall|i: int| 0 <= i < pieces.len() ==> (#[trigger] pieces[i]).len() == 2,
        0 <= k < pieces.len(),
    ensures
        text::joined(pieces, " "@).len() == 3 * pieces.len() - 1,
        text::joined(pieces, " "@)[3 * k] == pieces[k][0],
        text::joined(pieces, " "@)[3 * k + 1] == pieces[k][1],
    decreases pieces.len(),
{
    reveal_strlit(" ");
    let n = pieces.len();
    if n > 1 {
        let front = pieces.drop_last();
        assert forall|i: int| 0 <= i < front.len() implies (#[trigger] front[i]).len() == 2 by {
            assert(front[i] == pieces[i]);
        }
        assert(pieces.last() == pieces[n - 1]);
        if k < n - 1 {
            lemma_pairs(front, k);
            assert(front[k] == pieces[k]);
        } else {
            lemma_pairs(front, 0);
        }
    } else {
        assert(pieces[0].len() == 2);
    }
}

/// A byte is written in two digits: sixteen times the first and the second are the byte.
proof fn lemma_two_digits(byte: u8)
    ensures
        ({
            let s = text::padded(text::digits(byte as nat, 16), 2);
            &&& s.len() == 2
            &&& number::is_digit(s[0], 16)
            &&& number::is_digit(s[1], 16)
            &&& 16 * number::digit_value(s[0])->0 + number::digit_value(s[1])->0 == byte
        }),
{
    reveal_with_fuel(text::digits, 3);
    let n = byte as nat;
    let d = text::digits(n, 16);
    let s = text::padded(d, 2);
    if n < 16 {
        assert(d =~= seq![text::digit_char(n as int)]);
        assert(s =~= seq!['0', text::digit_char(n as int)]);
    } else {
        assert(n / 16 < 16);
        assert(d =~= seq![
            text::digit_char((n / 16) as int),
            text::digit_char((n % 16) as int),
        ]);
    }
}

/// A line of a dump shows the address in eight digits and, from place ten on, each byte in two digits
/// with a space behind it; from place sixty on it shows each byte as a character, with a dot for what
/// is no printable ASCII character.
pub proof fn law_dump_line_shows_its_bytes(address: u32, bytes: Seq<u8>, k: int)
    requires
        bytes.len() <= 16,
        0 <= k < bytes.len(),
    ensures
        ({
            let line = dump::dump_line(address as nat, bytes);
            let high = line[10 + 3 * k];
            let low = line[11 + 3 * k];
            let c = line[60 + k];
            &&& line.len() == 61 + bytes.len()
            &&& number::number("0x"@ + line.take(8)) == Ok::<nat, Seq<char>>(address as nat)
            &&& number::is_digit(high, 16)
            &&& number::is_digit(low, 16)
            &&& 16 * number::digit_value(high)->0 + number::digit_value(low)->0 == bytes[k]
            &&& if ' ' <= (bytes[k] as char) && (bytes[k] as char) <= '~' {
                c == bytes[k] as char
            } else {
                c == '.'
            }
        }),
{
    reveal_strlit("0x");
    reveal_strlit("  ");
    reveal_strlit("  |");
    reveal_strlit("|");
    let line = dump::dump_line(address as nat, bytes);
    let place = text::hex8_plain(address as nat);
    wording::law_hex8_has_ten_characters(address);
    number::law_printed_hex_is_read_back(address as u64);
    assert(place.len() == 8);
    assert(line.take(8) =~= place);
    let pieces = dump::hex_bytes(bytes);
    assert forall|i: int| 0 <= i < pieces.len() implies (#[trigger] pieces[i]).len() == 2 by {
        lemma_two_digits(bytes[i]);
    }
    lemma_pairs(pieces, k);
    lemma_two_digits(bytes[k]);
    let numbers = text::joined(pieces, " "@);
    let wide = dump::spaced(numbers, 47);
    assert(numbers.len() == 3 * bytes.len() - 1);
    assert(wide.len() == 47);
    assert(line[10 + 3 * k] == wide[3 * k]);
    assert(line[11 + 3 * k] == wide[3 * k + 1]);
    assert(wide[3 * k] == numbers[3 * k]);
    assert(wide[3 * k + 1] == numbers[3 * k + 1]);
    let characters = bytes.map_values(|byte: u8| dump::printable(byte));
    assert(line[60 + k] == characters[k]);
}

/// Line `i` of a dump is that of the sixteen bytes from `16 * i` on, or of the fewer that are left,
/// and begins with their address; there are as many lines as the bytes need.
pub proof fn law_dump_has_a_line_for_each_sixteen_bytes(address: nat, data: Seq<u8>, i: int)
    requires
        0 <= i,
        16 * i < data.len(),
    ensures
        i < dump::dump_lines(address, data).len(),
        16 * (dump::dump_lines(address, data).len() - 1) < data.len(),
        dump::dump_lines(address, data)[i] == dump::dump_line(
            (address + 16 * i) as nat,
            data.skip(16 * i).take(
                if data.len() - 16 * i < 16 {
                    data.len() - 16 * i
                } else {
                    16
                },
            ),
        ),
{
    let n = if data.len() - 16 * i < 16 {
        data.len() - 16 * i
    } else {
        16
    };
    assert(data.skip(16 * i).take(n) =~= dump::line_bytes(data, i));
}

/// The question before an erase names the addresses that are erased, the last one included.
pub proof fn law_question_names_the_range(start: Option<u32>, end: Option<u32>)
    ensures
        match commands::erase_question(start, end) {
            Ok(question) => {
                &&& start is Some ==> text::occurs(question, text::hex8(start->0 as nat))
                &&& end is Some && start is None ==> text::occurs(
                    question,
                    " before "@ + text::hex8(end->0 as nat),
                )
                &&& start is Some && end is Some ==> text::occurs(
                    question,
                    text::hex8(start->0 as nat) + "-"@ + text::hex8((end->0 - 1) as nat),
                ) && start->0 < end->0
                &&& start is None && end is None ==> text::occurs(question, "all target flash"@)
            },
            Err(_) => start is Some && end is Some && start->0 >= end->0,
        },
{
    if let Ok(question) = commands::erase_question(start, end) {
        match (start, end) {
            (Some(a), None) => {
                let shown = text::hex8(a as nat);
                lemma_end("Erase flash from "@, shown);
                lemma_more("Erase flash from "@ + shown, " to the flash end?"@);
            },
            (None, Some(b)) => {
                let shown = text::hex8(b as nat);
                reveal_strlit("Erase flash before ");
                reveal_strlit("Erase flash");
                reveal_strlit(" before ");
                let part = " before "@ + shown;
                assert("Erase flash before "@ =~= "Erase flash"@ + " before "@);
                assert("Erase flash before "@ + shown =~= "Erase flash"@ + part);
                lemma_end("Erase flash"@, part);
                lemma_more("Erase flash"@ + part, "?"@);
            },
            (Some(a), Some(b)) => {
                let first = text::hex8(a as nat);
                let last = text::hex8((b - 1) as nat);
                let span = first + "-"@ + last;
                assert("Erase flash "@ + first + "-"@ + last =~= "Erase flash "@ + span);
                lemma_end("Erase flash "@, span);
                lemma_more("Erase flash "@ + span, "?"@);
                lemma_end("Erase flash "@, first);
                lemma_more("Erase flash "@ + first, "-"@);
                lemma_more("Erase flash "@ + first + "-"@, last);
                lemma_more("Erase flash "@ + first + "-"@ + last, "?"@);
            },
            (None, None) => {
                reveal_strlit("Erase all target flash?");
                reveal_strlit("Erase ");
                reveal_strlit("all target flash");
                reveal_strlit("?");
                assert(question =~= "Erase "@ + "all target flash"@ + "?"@);
                lemma_end("Erase "@, "all target flash"@);
                lemma_more("Erase "@ + "all target flash"@, "?"@);
            },
        }
    }
}

/// What is said of an erase names the addresses that are erased, the last one included.
pub proof fn law_erase_notice_names_the_range(start: Option<u32>, end: Option<u32>, chip: ChipInfo)
    requires
        chip.flash.wf(),
        start is Some || end is Some,
    ensures
        commands::erasure(start, end, chip) matches Ok(erasure) ==> text::occurs(
            erasure.what,
            text::hex8(
                if start is Some {
                    start->0 as nat
                } else {
                    0x40_0000
                },
            ) + "-"@ + text::hex8(
                (if end is Some {
                    end->0 as int
                } else {
                    0x40_0000 + chip.flash.size
                } - 1) as nat,
            ),
        ),
{
    if let Ok(erasure) = commands::erasure(start, end, chip) {
        let first = text::hex8(
            if start is Some {
                start->0 as nat
            } else {
                0x40_0000
            },
        );
        let last: int = if end is Some {
            end->0 as int
        } else {
            0x40_0000 + chip.flash.size
        };
        let first_value: int = if start is Some {
            start->0 as int
        } else {
            0x40_0000
        };
        let shown = text::hex8((last - 1) as nat);
        let span = first + "-"@ + shown;
        let a = "flash "@ + first + "-"@ + shown;
        let size = commands::kb(last - first_value);
        assert(a =~= "flash "@ + span);
        lemma_end("flash "@, span);
        lemma_more(a, " ("@);
        lemma_more(a + " ("@, size);
        lemma_more(a + " ("@ + size, " KB)"@);
        assert(erasure.what == a + " ("@ + size + " KB)"@);
    }
}

/// What is said of a part names its file and, where it has no addresses of its own, its address.
pub proof fn law_label_names_the_part(part: Part)
    ensures
        text::occurs(part.label(), part.file),
        !(part.format is Elf) ==> text::occurs(part.label(), " @ "@ + text::hex8(part.addr as nat)),
{
    let none = Seq::<char>::empty();
    lemma_end(none, part.file);
    assert(none + part.file =~= part.file);
    if part.format is Elf {
        lemma_more(part.file, " at ELF load addresses"@);
    } else {
        let shown = text::hex8(part.addr as nat);
        lemma_more(part.file, " @ "@);
        lemma_more(part.file + " @ "@, shown);
        assert(part.label() =~= part.file + (" @ "@ + shown));
        lemma_end(part.file, " @ "@ + shown);
    }
}

/// What is said of a changed GPNVM bit names the bit, its value before and its value after.
pub proof fn law_notice_names_the_change(bit: u8, before: Gpnvm, after: Gpnvm)
    ensures
        text::occurs(
            commands::gpnvm_notice(bit, before, after),
            "GPNVM"@ + text::decimal(bit as nat),
        ),
        text::occurs(
            commands::gpnvm_notice(bit, before, after),
            text::decimal(before.bit(bit) as nat) + " -> "@ + text::decimal(after.bit(bit) as nat),
        ),
        text::occurs(commands::gpnvm_notice(bit, before, after), target::gpnvm_text(after)),
{
    reveal_strlit("ok: GPNVM");
    reveal_strlit("ok: ");
    reveal_strlit("GPNVM");
    let name = if bit == 0 {
        "security"@
    } else {
        "boot_mode"@
    };
    let hint = if bit == 1 {
        "\nThe change takes effect after reset. Run: jog reset"@
    } else {
        ""@
    };
    let from = text::decimal(before.bit(bit) as nat);
    let to = text::decimal(after.bit(bit) as nat);
    let bits = target::gpnvm_text(after);
    let a0 = "ok: GPNVM"@ + text::decimal(bit as nat);
    let a1 = a0 + " ("@;
    let a2 = a1 + name;
    let a3 = a2 + "): "@;
    let a4 = a3 + from;
    let a5 = a4 + " -> "@;
    let a6 = a5 + to;
    let a7 = a6 + "\n"@;
    let a8 = a7 + bits;
    let a9 = a8 + hint;
    assert(commands::gpnvm_notice(bit, before, after) == a9);
    lemma_more(a8, hint);
    lemma_end(a7, bits);
    lemma_more(a7, bits);
    lemma_more(a6, "\n"@);
    let change = from + " -> "@ + to;
    assert(a6 =~= a3 + change);
    lemma_end(a3, change);
    lemma_more(a5, to);
    lemma_more(a4, " -> "@);
    lemma_more(a3, from);
    lemma_more(a2, "): "@);
    lemma_more(a1, name);
    lemma_more(a0, " ("@);
    let what = "GPNVM"@ + text::decimal(bit as nat);
    assert("ok: GPNVM"@ =~= "ok: "@ + "GPNVM"@);
    assert(a0 =~= "ok: "@ + what);
    lemma_end("ok: "@, what);
}

/// Whether a text with some part in it was printed between two points of a walk.
pub open spec fn did_tell(t: Trail, u: Trail, part: Seq<char>) -> bool {
    exists|notice: Seq<char>| #[trigger]
        outcomes::did_ask(t, u, Request::Print(notice)) && text::occurs(notice, part)
}

/// A text that is printed tells what it holds.
proof fn lemma_told(t: Trail, a: Trail, b: Trail, u: Trail, notice: Seq<char>, part: Seq<char>)
    requires
        walk::leads_to(t, a),
        outcomes::did_ask(a, b, Request::Print(notice)),
        walk::leads_to(b, u),
        text::occurs(notice, part),
    ensures
        did_tell(t, u, part),
{
    outcomes::lemma_asked_inside(t, a, b, u, Request::Print(notice));
}

/// The user is told which range is erased, the last address included.
pub proof fn law_erased_range_is_told(t: Trail, range: Range<u32>)
    requires
        t.at >= 0,
        commands::range_erased(t, range).1 is Ok,
    ensures
        did_tell(
            t,
            commands::range_erased(t, range).0,
            text::hex8(range.start as nat) + "-"@ + text::hex8((range.end - 1) as nat),
        ),
{
    let end = commands::range_erased(t, range).0;
    reveal(commands::range_erased);
    let first = text::hex8(range.start as nat);
    let last = text::hex8((range.end - 1) as nat);
    let span = first + "-"@ + last;
    let notice = "Erasing "@ + first + "-"@ + last + "..."@;
    assert("Erasing "@ + first + "-"@ + last =~= "Erasing "@ + span);
    lemma_end("Erasing "@, span);
    lemma_more("Erasing "@ + span, "..."@);
    outcomes::lemma_act_asked(t, Request::Print(notice));
    let (u, _) = walk::ask_act(t, Request::Print(notice));
    promises::lemma_flash_run(u, image::erase_command(range), Reach::Anything);
    lemma_told(t, t, u, end, notice, span);
}

/// The user is told which part is written and, where it has no addresses of its own, where.
pub proof fn law_written_part_is_told(t: Trail, part: Part, erase: bool)
    requires
        t.at >= 0,
        flash::part_written(t, part, erase).1 is Ok,
    ensures
        did_tell(t, flash::part_written(t, part, erase).0, part.file),
        !(part.format is Elf) ==> did_tell(
            t,
            flash::part_written(t, part, erase).0,
            " @ "@ + text::hex8(part.addr as nat),
        ),
{
    let end = flash::part_written(t, part, erase).0;
    reveal(flash::part_written);
    law_label_names_the_part(part);
    let notice = "Programming "@ + part.label() + "..."@;
    lemma_inside("Programming "@, part.label(), "..."@);
    outcomes::lemma_act_asked(t, Request::Print(notice));
    let (u, _) = walk::ask_act(t, Request::Print(notice));
    promises::lemma_flash_run(u, part.write_command(erase), Reach::Anything);
    lemma_told(t, t, u, end, notice, part.file);
    if !(part.format is Elf) {
        lemma_told(t, t, u, end, notice, " @ "@ + text::hex8(part.addr as nat));
    }
}

/// What stands in a text stands in it with more on both sides.
proof fn lemma_inside(front: Seq<char>, s: Seq<char>, back: Seq<char>)
    ensures
        forall|part: Seq<char>| text::occurs(s, part) ==> #[trigger] text::occurs(
            front + s + back,
            part,
        ),
{
    let all = front + s + back;
    assert forall|part: Seq<char>| text::occurs(s, part) implies #[trigger] text::occurs(
        front + s + back,
        part,
    ) by {
        let i = choose|i: int| text::occurs_at(s, part, i);
        let k = front.len() + i;
        assert(all.subrange(k, k + part.len()) =~= s.subrange(i, i + part.len()));
        assert(text::occurs_at(all, part, k));
    }
}

/// What is said before a debug server starts names its port.
pub proof fn law_debug_notice_names_the_port(port: u16)
    ensures
        text::occurs(commands::gdb_notice(port), "localhost:"@ + text::decimal(port as nat)),
        text::occurs(
            commands::gdb_notice(port),
            "target extended-remote :"@ + text::decimal(port as nat),
        ),
{
    reveal_strlit("GDB server: localhost:");
    reveal_strlit("GDB server: ");
    reveal_strlit("localhost:");
    reveal_strlit("\narm-none-eabi-gdb -ex \"target extended-remote :");
    reveal_strlit("\narm-none-eabi-gdb -ex \"");
    reveal_strlit("target extended-remote :");
    let shown = text::decimal(port as nat);
    let host = "localhost:"@ + shown;
    let remote = "target extended-remote :"@ + shown;
    let a = "GDB server: localhost:"@ + shown;
    let b = a + "\narm-none-eabi-gdb -ex \"target extended-remote :"@;
    let c = b + shown;
    assert("GDB server: localhost:"@ =~= "GDB server: "@ + "localhost:"@);
    assert(a =~= "GDB server: "@ + host);
    lemma_end("GDB server: "@, host);
    lemma_more(a, "\narm-none-eabi-gdb -ex \"target extended-remote :"@);
    lemma_more(b, shown);
    assert("\narm-none-eabi-gdb -ex \"target extended-remote :"@
        =~= "\narm-none-eabi-gdb -ex \""@ + "target extended-remote :"@);
    assert(c =~= a + "\narm-none-eabi-gdb -ex \""@ + remote);
    lemma_end(a + "\narm-none-eabi-gdb -ex \""@, remote);
    lemma_more(c, "\" your.elf"@);
}

/// The user is told how many bytes are saved, from which address, and to which file.
pub proof fn law_saved_memory_is_told(t: Trail, address: u32, length: usize, path: Seq<char>)
    requires
        t.at >= 0,
        commands::memory_saved(t, address, length, path).1 is Ok,
    ensures
        did_tell(
            t,
            commands::memory_saved(t, address, length, path).0,
            text::decimal(length as nat) + " bytes from "@ + text::hex8(address as nat),
        ),
        did_tell(
            t,
            commands::memory_saved(t, address, length, path).0,
            text::decimal(length as nat) + " bytes to "@ + path,
        ),
{
    let end = commands::memory_saved(t, address, length, path).0;
    reveal(commands::memory_saved);
    let count = text::decimal(length as nat);
    let from = count + " bytes from "@ + text::hex8(address as nat);
    let notice = "Reading "@ + count + " bytes from "@ + text::hex8(address as nat) + "..."@;
    assert("Reading "@ + count + " bytes from "@ + text::hex8(address as nat) =~= "Reading "@
        + from);
    lemma_end("Reading "@, from);
    lemma_more("Reading "@ + from, "..."@);
    outcomes::lemma_act_asked(t, Request::Print(notice));
    let (u, _) = walk::ask_act(t, Request::Print(notice));
    let tcl = commands::dump_command(path, address, length as nat);
    promises::lemma_run_of(u, tcl, Reach::Anything);
    let (v, _) = session::run_of(u, tcl);
    let to = count + " bytes to "@ + path;
    let last = "ok: wrote "@ + count + " bytes to "@ + path;
    assert(last =~= "ok: wrote "@ + to);
    lemma_end("ok: wrote "@, to);
    outcomes::lemma_act_asked(v, Request::Print(last));
    lemma_told(t, t, u, end, notice, from);
    lemma_told(t, v, end, end, last, to);
}

/// A flash size that the chip identity gives otherwise is noted, with both sizes, and only then.
pub proof fn law_other_flash_size_is_noted(chip: ChipInfo)
    ensures
        ({
            let told = target::flash_kb(chip.cidr) as int;
            let found = chip.flash.size as int / 1024;
            let note = commands::flash_note(chip);
            if told == found {
                note.len() == 0
            } else {
                &&& text::occurs(note, "CHIPID reports "@ + text::decimal(told as nat))
                &&& text::occurs(note, "EEFC reports "@ + text::decimal(found as nat))
            }
        }),
{
    reveal_strlit("");
    let told = target::flash_kb(chip.cidr) as int;
    let found = chip.flash.size as int / 1024;
    if told != found {
        reveal_strlit("\nnote: CHIPID reports ");
        reveal_strlit("\nnote: ");
        reveal_strlit("CHIPID reports ");
        reveal_strlit(" KB of flash, but EEFC reports ");
        reveal_strlit(" KB of flash, but ");
        reveal_strlit("EEFC reports ");
        let first = "CHIPID reports "@ + text::decimal(told as nat);
        let second = "EEFC reports "@ + text::decimal(found as nat);
        let a = "\nnote: CHIPID reports "@ + text::decimal(told as nat);
        let b = a + " KB of flash, but EEFC reports "@;
        let c = b + text::decimal(found as nat);
        assert("\nnote: CHIPID reports "@ =~= "\nnote: "@ + "CHIPID reports "@);
        assert(a =~= "\nnote: "@ + first);
        lemma_end("\nnote: "@, first);
        lemma_more(a, " KB of flash, but EEFC reports "@);
        lemma_more(b, text::decimal(found as nat));
        assert(" KB of flash, but EEFC reports "@ =~= " KB of flash, but "@ + "EEFC reports "@);
        assert(c =~= a + " KB of flash, but "@ + second);
        lemma_end(a + " KB of flash, but "@, second);
        lemma_more(c, " KB; using EEFC"@);
    }
}

} // verus!
