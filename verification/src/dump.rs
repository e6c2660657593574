//! Memory shown as hexadecimal numbers and characters.
use crate::text;
use crate::text::{cat5, hex2_text, hex8_plain_text, join_from};
use vstd::prelude::*;

verus! {

/// The bytes of one line in hexadecimal.
pub open spec fn hex_bytes(bytes: Seq<u8>) -> Seq<Seq<char>> {
    bytes.map_values(|byte: u8| text::padded(text::digits(byte as nat, 16), 2))
}

/// A byte as a character, or a dot where it is no printable ASCII character.
pub open spec fn printable(byte: u8) -> char {
    if 32 <= byte < 127 {
        byte as char
    } else {
        '.'
    }
}

/// `s` with spaces behind it, up to `width` characters.
pub open spec fn spaced(s: Seq<char>, width: nat) -> Seq<char> {
    if s.len() < width {
        s + Seq::new((width - s.len()) as nat, |i: int| ' ')
    } else {
        s
    }
}

/// One line: the address, the bytes in hexadecimal, and the bytes as characters.
pub open spec fn dump_line(address: nat, bytes: Seq<u8>) -> Seq<char> {
    text::hex8_plain(address) + "  "@ + spaced(text::joined(hex_bytes(bytes), " "@), 47) + "  |"@
        + bytes.map_values(|byte: u8| printable(byte)) + "|"@
}

/// The number of lines of sixteen bytes.
pub open spec fn line_count(len: nat) -> nat {
    ((len + 15) / 16) as nat
}

/// The bytes of line `i`.
pub open spec fn line_bytes(data: Seq<u8>, i: int) -> Seq<u8> {
    data.subrange(
        16 * i,
        if 16 * i + 16 <= data.len() {
            16 * i + 16
        } else {
            data.len() as int
        },
    )
}

/// The lines of a dump, sixteen bytes each but perhaps the last.
pub open spec fn dump_lines(address: nat, data: Seq<u8>) -> Seq<Seq<char>> {
    Seq::new(
        line_count(data.len()),
        |i: int| dump_line((address + 16 * i) as nat, line_bytes(data, i)),
    )
}

/// The dump of some memory.
pub open spec fn dump_text(address: nat, data: Seq<u8>) -> Seq<char> {
    text::joined(dump_lines(address, data), "\n"@)
}

/// Shows the byte as a character.
fn printable_char(byte: u8) -> (c: char)
    ensures
        c == printable(byte),
{
    if 32 <= byte && byte < 127 {
        byte as char
    } else {
        '.'
    }
}

/// Adds spaces behind a text, up to `width` characters.
fn pad_right(text: String, width: usize) -> (result: String)
    ensures
        result@ == spaced(text@, width as nat),
{
    let mut result = text;
    let ghost start = text@;
    let mut len: usize = result.as_str().unicode_len();
    while len < width
        invariant
            len == result@.len(),
            start.len() <= len,
            len <= width || len == start.len(),
            result@ == start + Seq::new((len - start.len()) as nat, |i: int| ' '),
        decreases width - len,
    {
        let ghost sofar = result@;
        result.push(' ');
        len += 1;
        assert(result@ =~= start + Seq::new((len - start.len()) as nat, |i: int| ' '));
    }
    assert(result@ =~= spaced(start, width as nat));
    result
}

/// Shows one line.
fn show_line(address: u64, data: &Vec<u8>, from: usize, to: usize) -> (line: String)
    requires
        from <= to <= data@.len(),
    ensures
        line@ == dump_line(address as nat, data@.subrange(from as int, to as int)),
{
    let ghost bytes = data@.subrange(from as int, to as int);
    let mut hex: Vec<String> = Vec::new();
    let mut shown = String::new();
    let mut at: usize = from;
    assert(text::views(hex@) =~= hex_bytes(bytes.take(0)));
    assert(shown@ =~= bytes.take(0).map_values(|byte: u8| printable(byte)));
    while at < to
        invariant
            from <= at <= to <= data@.len(),
            bytes == data@.subrange(from as int, to as int),
            text::views(hex@) == hex_bytes(bytes.take(at - from)),
            shown@ == bytes.take(at - from).map_values(|byte: u8| printable(byte)),
        decreases to - at,
    {
        let ghost sofar = hex@;
        let ghost n = at - from;
        hex.push(hex2_text(data[at]));
        shown.push(printable_char(data[at]));
        at += 1;
        proof {
            assert(bytes[n] == data@[at - 1]);
            assert(bytes.take(n + 1) =~= bytes.take(n).push(bytes[n]));
            assert(text::views(hex@) =~= text::views(sofar).push(hex@.last()@));
            assert(hex_bytes(bytes.take(n + 1)) =~= hex_bytes(bytes.take(n)).push(
                text::padded(text::digits(bytes[n] as nat, 16), 2),
            ));
            assert(shown@ =~= bytes.take(n + 1).map_values(|byte: u8| printable(byte)));
        }
    }
    proof {
        assert(bytes.take(to - from) =~= bytes);
        assert(hex@.skip(0) =~= hex@);
    }
    let numbers = pad_right(join_from(&hex, 0, " "), 47);
    let mut line = cat5(
        hex8_plain_text(address).as_str(),
        "  ",
        numbers.as_str(),
        "  |",
        shown.as_str(),
    );
    line.append("|");
    line
}

/// Shows some memory, sixteen bytes in a line.
pub fn hexdump(address: u32, data: &Vec<u8>) -> (shown: String)
    requires
        address + data@.len() <= 0x1_0000_0000,
    ensures
        shown@ == dump_text(address as nat, data@),
{
    let ghost wanted = dump_lines(address as nat, data@);
    let mut lines: Vec<String> = Vec::new();
    let mut from: usize = 0;
    let len: usize = data.len();
    assert(text::views(lines@) =~= wanted.take(0));
    while from < len
        invariant
            len == data@.len(),
            address + len <= 0x1_0000_0000,
            from <= len,
            from == 16 * lines@.len() || from == len,
            from < len ==> from == 16 * lines@.len(),
            from == len ==> lines@.len() == line_count(len as nat),
            lines@.len() <= line_count(len as nat),
            wanted == dump_lines(address as nat, data@),
            text::views(lines@) == wanted.take(lines@.len() as int),
        decreases len - from,
    {
        let ghost n = lines@.len() as int;
        let ghost sofar = lines@;
        let to: usize = if len - from > 16 {
            from + 16
        } else {
            len
        };
        lines.push(show_line(address as u64 + from as u64, data, from, to));
        proof {
            assert(line_bytes(data@, n) =~= data@.subrange(from as int, to as int));
            assert(wanted[n] == lines@.last()@);
            assert(text::views(lines@) =~= text::views(sofar).push(wanted[n]));
            assert(wanted.take(n + 1) =~= wanted.take(n).push(wanted[n]));
        }
        from = to;
    }
    proof {
        assert(wanted.take(lines@.len() as int) =~= wanted);
        assert(lines@.skip(0) =~= lines@);
    }
    join_from(&lines, 0, "\n")
}

/// A dump shows every byte once: byte `i` stands in line `i / 16` at place `i % 16`.
pub proof fn law_dump_shows_every_byte(data: Seq<u8>, i: int)
    requires
        0 <= i < data.len(),
    ensures
        0 <= i / 16 < line_count(data.len()),
        0 <= i % 16 < line_bytes(data, i / 16).len(),
        line_bytes(data, i / 16)[i % 16] == data[i],
        line_bytes(data, i / 16).len() <= 16,
{
}

} // verus!
