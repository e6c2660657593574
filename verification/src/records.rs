//! What holds of the records of an Intel HEX file.
use vstd::prelude::*;

use crate::ihex;
use crate::ihex::{HexState, Piece};
use crate::number;

verus! {

/// The address of byte `k` of a data record: in a segment it wraps to the start of the segment, and
/// else it goes on.
pub open spec fn byte_address(state: HexState, offset: int, k: int) -> int {
    if state.segmented {
        state.base + (offset + k) % 0x1_0000
    } else {
        state.base + offset + k
    }
}

/// The offset in a record.
pub open spec fn record_offset(bytes: Seq<u8>) -> int {
    256 * bytes[1] + bytes[2]
}

/// Whether the bytes of a record are as many as its length says.
pub open spec fn is_record(bytes: Seq<u8>) -> bool {
    bytes.len() >= 5 && bytes.len() == bytes[0] + 5
}

/// Whether a data record has the byte `b` for address `a`.
pub open spec fn places(state: HexState, bytes: Seq<u8>, k: int, a: int, b: u8) -> bool {
    &&& 0 <= k < bytes[0]
    &&& a == byte_address(state, record_offset(bytes), k)
    &&& b == bytes[4 + k]
}

/// Whether pieces hold a byte at an address where others, or more pieces behind them, do.
proof fn lemma_holds_together(x: Seq<Piece>, y: Seq<Piece>)
    ensures
        forall|a: int, b: u8| #[trigger]
            ihex::holds(x + y, a, b) <==> ihex::holds(x, a, b) || ihex::holds(y, a, b),
{
    assert forall|a: int, b: u8| #[trigger] ihex::holds(x + y, a, b) <==> ihex::holds(x, a, b)
        || ihex::holds(y, a, b) by {
        if ihex::holds(x + y, a, b) {
            let i = choose|i: int| #[trigger] ihex::piece_holds(x + y, i, a, b);
            if i < x.len() {
                assert(ihex::piece_holds(x, i, a, b));
            } else {
                assert(ihex::piece_holds(y, i - x.len(), a, b));
            }
        }
        if ihex::holds(x, a, b) {
            let i = choose|i: int| #[trigger] ihex::piece_holds(x, i, a, b);
            assert(ihex::piece_holds(x + y, i, a, b));
        }
        if ihex::holds(y, a, b) {
            let i = choose|i: int| #[trigger] ihex::piece_holds(y, i, a, b);
            assert(ihex::piece_holds(x + y, i + x.len(), a, b));
        }
    }
}

/// The places for the data of a record hold each byte at its address.
proof fn lemma_placed(state: HexState, bytes: Seq<u8>)
    requires
        is_record(bytes),
    ensures
        forall|a: int, b: u8| #[trigger]
            ihex::holds(
                ihex::placed(
                    state,
                    record_offset(bytes),
                    bytes.subrange(4, 4 + bytes[0] as int),
                ),
                a,
                b,
            ) <==> exists|k: int| places(state, bytes, k, a, b),
{
    let count = bytes[0] as int;
    let offset = record_offset(bytes);
    let payload = bytes.subrange(4, 4 + count);
    let pieces = ihex::placed(state, offset, payload);
    let n = ihex::unwrapped_len(state.segmented, offset, count);
    assert forall|a: int, b: u8| #[trigger] ihex::holds(pieces, a, b) <==> exists|k: int|
        places(state, bytes, k, a, b) by {
        if ihex::holds(pieces, a, b) {
            let i = choose|i: int| #[trigger] ihex::piece_holds(pieces, i, a, b);
            if i == 0 {
                let k = a - state.base - offset;
                assert(payload[k] == bytes[4 + k]);
                assert(places(state, bytes, k, a, b));
            } else {
                let k = n + a - state.base;
                assert(payload[k] == bytes[4 + k]);
                assert(offset + k == 0x1_0000 + (a - state.base));
                assert(places(state, bytes, k, a, b));
            }
        }
        if exists|k: int| places(state, bytes, k, a, b) {
            let k = choose|k: int| places(state, bytes, k, a, b);
            assert(payload[k] == bytes[4 + k]);
            if k < n {
                assert(ihex::piece_holds(pieces, 0, a, b));
            } else {
                assert((offset + k) % 0x1_0000 == offset + k - 0x1_0000);
                assert(ihex::piece_holds(pieces, 1, a, b));
            }
        }
    }
}

/// A data record puts each of its bytes at its address and nothing else anywhere; what came before
/// stays. It is rejected exactly where one of its bytes would lie outside flash.
pub proof fn law_data_record_places_its_bytes(
    state: HexState,
    bytes: Seq<u8>,
    flash_base: u32,
    flash_end: u32,
)
    requires
        is_record(bytes),
        bytes[3] == 0,
        0 <= state.base,
    ensures
        match ihex::after_record(state, bytes, flash_base, flash_end) {
            Ok(next) => {
                &&& next.base == state.base
                &&& next.segmented == state.segmented
                &&& next.eof == state.eof
                &&& forall|a: int, b: u8| #[trigger]
                    ihex::holds(next.pieces, a, b) <==> ihex::holds(state.pieces, a, b)
                        || exists|k: int| places(state, bytes, k, a, b)
                &&& forall|k: int|
                    0 <= k < bytes[0] ==> flash_base <= #[trigger] byte_address(
                        state,
                        record_offset(bytes),
                        k,
                    ) < flash_end
            },
            Err(_) => exists|k: int|
                0 <= k < bytes[0] && !(flash_base <= #[trigger] byte_address(
                    state,
                    record_offset(bytes),
                    k,
                ) < flash_end),
        },
{
    let count = bytes[0] as int;
    let offset = record_offset(bytes);
    let payload = bytes.subrange(4, 4 + count);
    let pieces = ihex::placed(state, offset, payload);
    let n = ihex::unwrapped_len(state.segmented, offset, count);
    assert(offset == ihex::be16(bytes[1], bytes[2]));
    assert(0 <= offset < 0x1_0000);
    lemma_placed(state, bytes);
    lemma_holds_together(state.pieces, pieces);
    reveal_with_fuel(ihex::places_fault, 3);
    if count > 0 {
        assert(byte_address(state, offset, 0) == state.base + offset);
        assert(byte_address(state, offset, n - 1) == state.base + offset + n - 1);
        if n < count {
            assert((offset + n) % 0x1_0000 == 0);
            assert(byte_address(state, offset, n) == state.base);
            assert((offset + count - 1) % 0x1_0000 == offset + count - 1 - 0x1_0000);
            assert(byte_address(state, offset, count - 1) == state.base + count - n - 1);
            assert(pieces.skip(1) =~= seq![pieces[1]]);
            assert(pieces.skip(1).skip(1) =~= Seq::empty());
        } else {
            assert(pieces.skip(1) =~= Seq::empty());
        }
    }
    if let Ok(next) = ihex::after_record(state, bytes, flash_base, flash_end) {
        assert forall|k: int| 0 <= k < count implies flash_base <= #[trigger] byte_address(
            state,
            offset,
            k,
        ) < flash_end by {
            if k >= n {
                assert((offset + k) % 0x1_0000 == offset + k - 0x1_0000);
            } else if state.segmented {
                assert((offset + k) % 0x1_0000 == offset + k);
            }
        }
    }
}

/// Records without data: the end of the file, a segment, which counts in units of sixteen, a linear
/// base, which counts in units of 64 KiB, and a start address, which changes nothing. Each has its own
/// length and no offset; all else is rejected.
pub proof fn law_other_records_set_the_base(
    state: HexState,
    bytes: Seq<u8>,
    flash_base: u32,
    flash_end: u32,
)
    requires
        is_record(bytes),
        bytes[3] != 0,
    ensures
        ({
            let next = ihex::after_record(state, bytes, flash_base, flash_end);
            let value = 256 * bytes[4] + bytes[5];
            let is_end = bytes[3] == 1 && bytes[0] == 0;
            let is_segment = bytes[3] == 2 && bytes[0] == 2;
            let is_linear = bytes[3] == 4 && bytes[0] == 2;
            let is_start = (bytes[3] == 3 || bytes[3] == 5) && bytes[0] == 4;
            &&& next is Ok <==> bytes[1] == 0 && bytes[2] == 0 && (is_end || is_segment || is_linear
                || is_start)
            &&& next matches Ok(next) ==> {
                &&& next.pieces == state.pieces
                &&& next.eof == (is_end || state.eof)
                &&& next.base == if is_segment {
                    16 * value
                } else if is_linear {
                    65_536 * value
                } else {
                    state.base
                }
                &&& next.segmented == if is_segment {
                    true
                } else if is_linear {
                    false
                } else {
                    state.segmented
                }
            }
        }),
{
    assert(ihex::be16(bytes[1], bytes[2]) == 0 <==> bytes[1] == 0 && bytes[2] == 0);
}

/// The value of a hexadecimal digit is that of the digit in any number.
proof fn lemma_hex_digit(b: u8)
    ensures
        match ihex::hex_digit(b) {
            Some(value) => value < 16 && number::digit_value(b as char) == Some(value as nat),
            None => !number::is_digit(b as char, 16),
        },
{
}

/// The sum of bytes is that of two parts of them.
pub proof fn law_byte_sums_add_up(x: Seq<u8>, y: Seq<u8>)
    ensures
        ihex::byte_sum(x + y) == ihex::byte_sum(x) + ihex::byte_sum(y),
        x.len() == 1 ==> ihex::byte_sum(x) == x[0],
    decreases y.len(),
{
    if y.len() == 0 {
        assert(x + y =~= x);
    } else {
        law_byte_sums_add_up(x, y.drop_last());
        assert((x + y).drop_last() =~= x + y.drop_last());
        assert((x + y).last() == y.last());
    }
    if x.len() == 1 {
        reveal_with_fuel(ihex::byte_sum, 2);
    }
}

/// Whether two hexadecimal digits stand for a byte.
pub open spec fn are_digits_of(high: u8, low: u8, byte: u8) -> bool {
    &&& number::is_digit(high as char, 16)
    &&& number::is_digit(low as char, 16)
    &&& 16 * number::digit_value(high as char)->0 + number::digit_value(low as char)->0 == byte
}

/// Whether a line is a record with these bytes: a colon, then two hexadecimal digits for each byte,
/// as many as the first byte says, and a sum of all of them that is a multiple of 256.
pub open spec fn is_line_of(line: Seq<u8>, bytes: Seq<u8>) -> bool {
    &&& line.len() == 1 + 2 * bytes.len()
    &&& line[0] as char == ':'
    &&& forall|i: int|
        0 <= i < bytes.len() ==> are_digits_of(
            line[2 * i + 1],
            line[2 * i + 2],
            #[trigger] bytes[i],
        )
    &&& is_record(bytes)
    &&& ihex::byte_sum(bytes) % 256 == 0
}

/// A line is read as the bytes that it stands for, and rejected where it stands for none.
pub proof fn law_record_is_read_from_its_line(line: Seq<u8>, bytes: Seq<u8>)
    ensures
        is_line_of(line, bytes) <==> ihex::record_bytes(line) == Ok::<Seq<u8>, Seq<char>>(bytes),
{
    let hex = line.skip(1);
    let found = ihex::octets(hex);
    assert(line.len() > 0 ==> (line[0] as char == ':' <==> line[0] == 58));
    if ihex::record_bytes(line) == Ok::<Seq<u8>, Seq<char>>(bytes) {
        assert forall|i: int| 0 <= i < bytes.len() implies are_digits_of(
            line[2 * i + 1],
            line[2 * i + 2],
            #[trigger] bytes[i],
        ) by {
            assert(hex[2 * i] == line[2 * i + 1]);
            assert(hex[2 * i + 1] == line[2 * i + 2]);
            lemma_hex_digit(hex[2 * i]);
            lemma_hex_digit(hex[2 * i + 1]);
            assert(bytes[i] == ihex::octet(hex, i));
        }
    }
    if is_line_of(line, bytes) {
        assert forall|j: int| 0 <= j < hex.len() implies ihex::hex_digit(#[trigger] hex[j]) is Some by {
            let i = j / 2;
            assert(0 <= i < bytes.len());
            assert(are_digits_of(line[2 * i + 1], line[2 * i + 2], bytes[i]));
            assert(hex[j] == line[j + 1]);
            assert(j == 2 * i || j == 2 * i + 1);
            lemma_hex_digit(hex[j]);
        }
        assert forall|i: int| 0 <= i < bytes.len() implies found[i] == bytes[i] by {
            assert(are_digits_of(line[2 * i + 1], line[2 * i + 2], bytes[i]));
            assert(hex[2 * i] == line[2 * i + 1]);
            assert(hex[2 * i + 1] == line[2 * i + 2]);
            lemma_hex_digit(hex[2 * i]);
            lemma_hex_digit(hex[2 * i + 1]);
        }
        assert(found =~= bytes);
    }
}

/// Whether two places for data have an address in common.
pub open spec fn do_overlap(p: Piece, q: Piece) -> bool {
    p.address < q.end() && q.address < p.end()
}

/// A file is accepted where each line is, the records end with that for the end of the file, there is
/// data, and no two places for it have an address in common; anything else is rejected.
pub proof fn law_complete_file_is_accepted(
    lines: Seq<Seq<u8>>,
    flash_base: u32,
    flash_end: u32,
)
    ensures
        match ihex::after_lines(lines, lines.len() as int, flash_base, flash_end) {
            Err(_) => ihex::image_of_lines(lines, flash_base, flash_end) is Err,
            Ok(state) => ihex::image_of_lines(lines, flash_base, flash_end) is Ok <==> state.eof
                && state.pieces.len() > 0 && forall|i: int, j: int|
                0 <= i < j < state.pieces.len() ==> !do_overlap(
                    #[trigger] state.pieces[i],
                    #[trigger] state.pieces[j],
                ),
        },
        forall|state: HexState, record: Seq<u8>|
            state.eof ==> (#[trigger] ihex::after_text(state, record, flash_base, flash_end)) is Err,
{
    if let Ok(state) = ihex::after_lines(lines, lines.len() as int, flash_base, flash_end) {
        let pieces = state.pieces;
        ihex::lemma_after_lines_sound(lines, lines.len() as int, flash_base, flash_end);
        if exists|a: int| #[trigger] ihex::clash_at(pieces, a) {
            let a = choose|a: int| #[trigger] ihex::clash_at(pieces, a);
            let (i, j) = choose|i: int, j: int| #[trigger] ihex::clash_of(pieces, i, j, a);
            assert(ihex::in_flash(pieces[j], flash_base, flash_end));
            assert(do_overlap(pieces[i], pieces[j]));
            assert(do_overlap(pieces[j], pieces[i]));
        }
        if exists|i: int, j: int|
            0 <= i < j < pieces.len() && do_overlap(#[trigger] pieces[i], #[trigger] pieces[j]) {
            let (i, j) = choose|i: int, j: int|
                0 <= i < j < pieces.len() && do_overlap(#[trigger] pieces[i], #[trigger] pieces[j]);
            if pieces[i].address <= pieces[j].address {
                assert(ihex::clash_of(pieces, i, j, pieces[j].address));
                assert(ihex::clash_at(pieces, pieces[j].address));
            } else {
                assert(ihex::clash_of(pieces, j, i, pieces[i].address));
                assert(ihex::clash_at(pieces, pieces[i].address));
            }
        }
    }
}

/// Lines with a line feed between each two.
pub open spec fn file_of(lines: Seq<Seq<u8>>) -> Seq<u8>
    decreases lines.len(),
{
    if lines.len() == 0 {
        Seq::empty()
    } else if lines.len() == 1 {
        lines[0]
    } else {
        lines[0] + seq![10u8] + file_of(lines.skip(1))
    }
}

/// The first line goes up to the first line feed.
proof fn lemma_first_line(data: Seq<u8>)
    ensures
        ihex::line_len(data) <= data.len(),
        forall|i: int| 0 <= i < ihex::line_len(data) ==> (#[trigger] data[i]) != 10,
        ihex::line_len(data) < data.len() ==> data[ihex::line_len(data) as int] == 10,
    decreases data.len(),
{
    if data.len() > 0 && data[0] != 10 {
        let rest = data.skip(1);
        lemma_first_line(rest);
        assert forall|i: int| 0 <= i < ihex::line_len(data) implies (#[trigger] data[i]) != 10 by {
            if i > 0 {
                assert(rest[i - 1] == data[i]);
            }
        }
        if ihex::line_len(data) < data.len() {
            assert(rest[ihex::line_len(rest) as int] == data[ihex::line_len(data) as int]);
        }
    }
}

/// The lines of a file, with a line feed between each two, are the file, and no line holds a line
/// feed.
pub proof fn law_lines_make_the_file(data: Seq<u8>)
    ensures
        file_of(ihex::lines_of(data)) == data,
        ihex::lines_of(data).len() > 0,
        forall|i: int|
            0 <= i < ihex::lines_of(data).len() ==> !(#[trigger] ihex::lines_of(data)[i]).contains(10),
    decreases data.len(),
{
    let n = ihex::line_len(data) as int;
    let lines = ihex::lines_of(data);
    lemma_first_line(data);
    if n < data.len() {
        let first = data.take(n);
        let rest = data.skip(n + 1);
        law_lines_make_the_file(rest);
        let others = ihex::lines_of(rest);
        assert(lines == seq![first] + others);
        assert(lines.skip(1) =~= others);
        assert(file_of(lines) =~= data);
        assert forall|i: int| 0 <= i < lines.len() implies !(#[trigger] lines[i]).contains(10) by {
            if i > 0 {
                assert(lines[i] == others[i - 1]);
            }
        }
    }
}

} // verus!
