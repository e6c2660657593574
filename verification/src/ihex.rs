//! Intel HEX images: records, the data they place, and the chunks that are programmed.
use crate::order;
use crate::order::sort_pairs;
use crate::text;
use crate::text::{cat, cat3, digits_text, hex2_text, hex8_plain_text};
use vstd::prelude::*;
use vstd::slice::slice_subrange;

verus! {

/// Bytes and the address of the first of them.
#[derive(Debug, PartialEq, Eq)]
pub struct Chunk {
    pub address: u32,
    pub data: Vec<u8>,
}

/// Bytes and the address of the first of them.
#[verifier::ext_equal]
pub struct Piece {
    pub address: int,
    pub data: Seq<u8>,
}

impl Piece {
    /// The address behind the last byte.
    pub open spec fn end(self) -> int {
        self.address + self.data.len()
    }
}

impl View for Chunk {
    type V = Piece;

    open spec fn view(&self) -> Piece {
        Piece { address: self.address as int, data: self.data@ }
    }
}

/// What a list of chunks holds.
pub open spec fn pieces_of(chunks: Seq<Chunk>) -> Seq<Piece> {
    chunks.map_values(|c: Chunk| c@)
}

/// Whether some piece has the byte `b` at address `a`.
pub open spec fn holds(pieces: Seq<Piece>, a: int, b: u8) -> bool {
    exists|i: int| #[trigger] piece_holds(pieces, i, a, b)
}

/// Whether piece `i` has the byte `b` at address `a`.
pub open spec fn piece_holds(pieces: Seq<Piece>, i: int, a: int, b: u8) -> bool {
    0 <= i < pieces.len() && pieces[i].address <= a < pieces[i].end() && pieces[i].data[a
        - pieces[i].address] == b
}

/// Whether a piece starts at `a`, and `a` lies in another piece.
pub open spec fn clash_at(pieces: Seq<Piece>, a: int) -> bool {
    exists|i: int, j: int| #[trigger] clash_of(pieces, i, j, a)
}

/// Whether piece `j` starts at `a`, and `a` lies in piece `i`.
pub open spec fn clash_of(pieces: Seq<Piece>, i: int, j: int, a: int) -> bool {
    &&& 0 <= i < pieces.len()
    &&& 0 <= j < pieces.len()
    &&& i != j
    &&& pieces[j].address == a
    &&& pieces[i].address <= a < pieces[i].end()
}

/// Whether `a` is the lowest address at which a piece starts inside another.
pub open spec fn first_clash(pieces: Seq<Piece>, a: int) -> bool {
    clash_at(pieces, a) && forall|b: int| #[trigger] clash_at(pieces, b) ==> a <= b
}

/// Whether `chunks` is the data of `pieces` in ascending order, with a gap between each two
/// chunks.
pub open spec fn is_merged(chunks: Seq<Piece>, pieces: Seq<Piece>) -> bool {
    &&& forall|i: int| 0 <= i < chunks.len() ==> (#[trigger] chunks[i]).data.len() > 0
    &&& forall|i: int, j: int|
        0 <= i < j < chunks.len() ==> (#[trigger] chunks[i]).end() < (#[trigger] chunks[j]).address
    &&& forall|a: int, b: u8| #[trigger] holds(chunks, a, b) <==> holds(pieces, a, b)
}

/// The data of `pieces` in ascending order, with a gap between each two chunks.
pub open spec fn merged(pieces: Seq<Piece>) -> Seq<Piece> {
    choose|chunks: Seq<Piece>| is_merged(chunks, pieces)
}

/// The bytes before the first line feed.
pub open spec fn line_len(data: Seq<u8>) -> nat
    decreases data.len(),
{
    if data.len() == 0 || data[0] == 10 {
        0
    } else {
        1 + line_len(data.skip(1))
    }
}

/// The first line is no longer than the data.
pub proof fn lemma_line_len(data: Seq<u8>)
    ensures
        line_len(data) <= data.len(),
    decreases data.len(),
{
    if data.len() > 0 && data[0] != 10 {
        lemma_line_len(data.skip(1));
    }
}

/// A run of `n` bytes that are no line feeds, ended by one or by the end, is the first line.
proof fn lemma_line_len_is(data: Seq<u8>, n: nat)
    requires
        n <= data.len(),
        forall|i: int| 0 <= i < n ==> #[trigger] data[i] != 10,
        n < data.len() ==> data[n as int] == 10,
    ensures
        line_len(data) == n,
    decreases data.len(),
{
    if n > 0 {
        let rest = data.skip(1);
        assert forall|i: int| 0 <= i < n - 1 implies #[trigger] rest[i] != 10 by {
            assert(rest[i] == data[i + 1]);
        }
        if n < data.len() {
            assert(rest[n - 1] == data[n as int]);
        }
        lemma_line_len_is(rest, (n - 1) as nat);
    }
}

/// The lines of a file: what stands between line feeds.
pub open spec fn lines_of(data: Seq<u8>) -> Seq<Seq<u8>>
    decreases data.len(),
    via lines_of_decreases
{
    let n = line_len(data);
    if n >= data.len() {
        seq![data]
    } else {
        seq![data.take(n as int)] + lines_of(data.skip(n as int + 1))
    }
}

#[via_fn]
proof fn lines_of_decreases(data: Seq<u8>) {
    lemma_line_len(data);
}

/// A line without a carriage return at its end.
pub open spec fn without_return(line: Seq<u8>) -> Seq<u8> {
    if line.len() > 0 && line.last() == 13 {
        line.drop_last()
    } else {
        line
    }
}

/// The value of a hexadecimal digit.
pub open spec fn hex_digit(b: u8) -> Option<u8> {
    if 48 <= b <= 57 {
        Some((b - 48) as u8)
    } else if 97 <= b <= 102 {
        Some((b - 87) as u8)
    } else if 65 <= b <= 70 {
        Some((b - 55) as u8)
    } else {
        None
    }
}

/// The value of a hexadecimal digit.
pub fn digit(byte: u8) -> (result: Option<u8>)
    ensures
        result == hex_digit(byte),
{
    if 48 <= byte && byte <= 57 {
        Some(byte - 48)
    } else if 97 <= byte && byte <= 102 {
        Some(byte - 87)
    } else if 65 <= byte && byte <= 70 {
        Some(byte - 55)
    } else {
        None
    }
}

/// Whether all of `s` is hexadecimal digits.
pub open spec fn all_hex(s: Seq<u8>) -> bool {
    forall|i: int| 0 <= i < s.len() ==> hex_digit(#[trigger] s[i]) is Some
}

/// The byte that digits `2 * i` and `2 * i + 1` stand for.
pub open spec fn octet(hex: Seq<u8>, i: int) -> u8 {
    (hex_digit(hex[2 * i])->0 * 16 + hex_digit(hex[2 * i + 1])->0) as u8
}

/// The bytes that pairs of digits stand for.
pub open spec fn octets(hex: Seq<u8>) -> Seq<u8> {
    Seq::new(hex.len() / 2, |i: int| octet(hex, i))
}

/// The sum of some bytes.
pub open spec fn byte_sum(s: Seq<u8>) -> nat
    decreases s.len(),
{
    if s.len() == 0 {
        0
    } else {
        byte_sum(s.drop_last()) + s.last() as nat
    }
}

/// The bytes of a record, from its length to its checksum, or what is wrong with the line.
pub open spec fn record_bytes(line: Seq<u8>) -> Result<Seq<u8>, Seq<char>> {
    let hex = line.skip(1);
    let bytes = octets(hex);
    if line.len() == 0 || line[0] != 58 {
        Err("record must start with ':'"@)
    } else if hex.len() < 10 || hex.len() % 2 != 0 {
        Err("truncated record or invalid record length"@)
    } else if !all_hex(hex) {
        Err("invalid hexadecimal digit"@)
    } else if bytes.len() != bytes[0] + 5 {
        Err("byte count does not match record length"@)
    } else if byte_sum(bytes) % 256 != 0 {
        Err("invalid checksum"@)
    } else {
        Ok(bytes)
    }
}

/// Where reading stands between two records.
#[verifier::ext_equal]
pub struct HexState {
    /// What the offsets of data records are added to.
    pub base: int,
    /// Whether offsets wrap within a 64 KiB segment.
    pub segmented: bool,
    /// Whether the end-of-file record was seen.
    pub eof: bool,
    /// The data that was placed.
    pub pieces: Seq<Piece>,
}

/// Where reading starts.
pub open spec fn hex_start() -> HexState {
    HexState { base: 0, segmented: false, eof: false, pieces: Seq::empty() }
}

/// The number that two bytes stand for, the first being the more significant.
pub open spec fn be16(high: u8, low: u8) -> int {
    high * 256 + low
}

/// The data of a record before it wraps to the start of its segment.
pub open spec fn unwrapped_len(segmented: bool, offset: int, count: int) -> int {
    if segmented && count > 0x10000 - offset {
        0x10000 - offset
    } else {
        count
    }
}

/// Where the data of a record goes. Segment addressing wraps the offset at 64 KiB; linear
/// addressing carries into the next 64 KiB.
pub open spec fn placed(state: HexState, offset: int, payload: Seq<u8>) -> Seq<Piece> {
    let n = unwrapped_len(state.segmented, offset, payload.len() as int);
    let first = Piece { address: state.base + offset, data: payload.take(n) };
    if payload.len() == 0 {
        Seq::empty()
    } else if n == payload.len() {
        seq![first]
    } else {
        seq![first, Piece { address: state.base, data: payload.skip(n) }]
    }
}

/// What is wrong with a place for data.
pub open spec fn place_fault(p: Piece, flash_base: u32, flash_end: u32) -> Option<Seq<char>> {
    if p.end() > u32::MAX {
        Some("address overflow"@)
    } else if p.address < flash_base || p.end() > flash_end {
        Some(
            "data range 0x"@ + text::hex8_plain(p.address as nat) + "..0x"@ + text::hex8_plain(
                p.end() as nat,
            ) + " is outside flash 0x"@ + text::hex8_plain(flash_base as nat) + "..0x"@
                + text::hex8_plain(flash_end as nat),
        )
    } else {
        None
    }
}

/// What is wrong with the first place that has a fault.
pub open spec fn places_fault(places: Seq<Piece>, flash_base: u32, flash_end: u32) -> Option<
    Seq<char>,
>
    decreases places.len(),
{
    if places.len() == 0 {
        None
    } else if place_fault(places[0], flash_base, flash_end) is Some {
        place_fault(places[0], flash_base, flash_end)
    } else {
        places_fault(places.skip(1), flash_base, flash_end)
    }
}

/// The state behind a record, or what is wrong with the record.
pub open spec fn after_record(
    state: HexState,
    bytes: Seq<u8>,
    flash_base: u32,
    flash_end: u32,
) -> Result<HexState, Seq<char>> {
    let count = bytes[0] as int;
    let offset = be16(bytes[1], bytes[2]);
    let kind = bytes[3];
    let payload = bytes.subrange(4, 4 + count);
    if kind != 0 && offset != 0 {
        Err("non-data record address must be zero"@)
    } else if kind == 0 {
        let places = placed(state, offset, payload);
        match places_fault(places, flash_base, flash_end) {
            Some(message) => Err(message),
            None => Ok(HexState { pieces: state.pieces + places, ..state }),
        }
    } else if kind == 1 && count == 0 {
        Ok(HexState { eof: true, ..state })
    } else if kind == 2 && count == 2 {
        Ok(HexState { segmented: true, base: be16(payload[0], payload[1]) * 16, ..state })
    } else if kind == 4 && count == 2 {
        Ok(HexState { segmented: false, base: be16(payload[0], payload[1]) * 65536, ..state })
    } else if (kind == 3 || kind == 5) && count == 4 {
        Ok(state)
    } else if kind <= 5 {
        Err("invalid byte count for record type"@)
    } else {
        Err("unsupported record type 0x"@ + text::padded(text::digits(kind as nat, 16), 2))
    }
}

/// The state behind a line that is not blank, or what is wrong with the line.
pub open spec fn after_text(
    state: HexState,
    record: Seq<u8>,
    flash_base: u32,
    flash_end: u32,
) -> Result<HexState, Seq<char>> {
    if state.eof {
        Err("unexpected content after end-of-file record"@)
    } else {
        match record_bytes(record) {
            Err(message) => Err(message),
            Ok(bytes) => after_record(state, bytes, flash_base, flash_end),
        }
    }
}

/// The state behind a line, or what is wrong with the line.
pub open spec fn after_line(
    state: HexState,
    line: Seq<u8>,
    flash_base: u32,
    flash_end: u32,
) -> Result<HexState, Seq<char>> {
    let record = without_return(line);
    if record.len() == 0 {
        Ok(state)
    } else {
        after_text(state, record, flash_base, flash_end)
    }
}

/// The state behind the first `n` lines, or what is wrong with the first bad line.
pub open spec fn after_lines(
    lines: Seq<Seq<u8>>,
    n: int,
    flash_base: u32,
    flash_end: u32,
) -> Result<HexState, Seq<char>>
    decreases n,
{
    if n <= 0 {
        Ok(hex_start())
    } else {
        match after_lines(lines, n - 1, flash_base, flash_end) {
            Err(message) => Err(message),
            Ok(state) => match after_line(state, lines[n - 1], flash_base, flash_end) {
                Err(message) => Err(
                    "Intel HEX line "@ + text::decimal(n as nat) + ": "@ + message,
                ),
                Ok(next) => Ok(next),
            },
        }
    }
}

/// The data of an image in ascending order, or what is wrong with it.
pub open spec fn image_of_lines(lines: Seq<Seq<u8>>, flash_base: u32, flash_end: u32) -> Result<
    Seq<Piece>,
    Seq<char>,
> {
    match after_lines(lines, lines.len() as int, flash_base, flash_end) {
        Err(message) => Err(message),
        Ok(state) => if !state.eof {
            Err("Intel HEX is missing an end-of-file record"@)
        } else if state.pieces.len() == 0 {
            Err("Intel HEX contains no data"@)
        } else if exists|a: int| #[trigger] clash_at(state.pieces, a) {
            Err(
                "Intel HEX data overlaps at 0x"@ + text::hex8_plain(
                    (choose|a: int| first_clash(state.pieces, a)) as nat,
                ),
            )
        } else {
            Ok(merged(state.pieces))
        },
    }
}

/// The data of an Intel HEX file in ascending order, or what is wrong with it.
pub open spec fn hex_image(data: Seq<u8>, flash_base: u32, flash_end: u32) -> Result<
    Seq<Piece>,
    Seq<char>,
> {
    image_of_lines(lines_of(data), flash_base, flash_end)
}

/// The bytes of a record, from its length to its checksum, or what is wrong with the line.
fn decode_record(line: &[u8]) -> (result: Result<Vec<u8>, String>)
    ensures
        match result {
            Ok(bytes) => record_bytes(line@) == Ok::<Seq<u8>, Seq<char>>(bytes@),
            Err(message) => record_bytes(line@) == Err::<Seq<u8>, Seq<char>>(message@),
        },
{
    if line.len() == 0 || line[0] != 58 {
        return Err("record must start with ':'".to_owned());
    }
    let hex = slice_subrange(line, 1, line.len());
    assert(hex@ =~= line@.skip(1));
    if hex.len() < 10 || hex.len() % 2 != 0 {
        return Err("truncated record or invalid record length".to_owned());
    }
    let len: usize = hex.len();
    let mut bytes: Vec<u8> = Vec::new();
    let mut sum: u32 = 0;
    let mut i: usize = 0;
    while i < len / 2
        invariant
            i <= len / 2,
            len == hex@.len(),
            len % 2 == 0,
            bytes@ =~= octets(hex@).take(i as int),
            forall|k: int| 0 <= k < 2 * i ==> hex_digit(#[trigger] hex@[k]) is Some,
            sum < 256,
            sum == byte_sum(bytes@) % 256,
            hex@ == line@.skip(1),
            line@.len() > 0 && line@[0] == 58 && len >= 10,
        decreases len / 2 - i,
    {
        let high: u8 = match digit(hex[2 * i]) {
            Some(d) => d,
            None => return Err("invalid hexadecimal digit".to_owned()),
        };
        let low: u8 = match digit(hex[2 * i + 1]) {
            Some(d) => d,
            None => return Err("invalid hexadecimal digit".to_owned()),
        };
        let byte: u8 = high * 16 + low;
        let ghost before = bytes@;
        bytes.push(byte);
        proof {
            assert(bytes@.drop_last() =~= before);
            assert(byte == octet(hex@, i as int));
            assert(byte_sum(bytes@) == byte_sum(before) + byte as nat);
        }
        sum = (sum + byte as u32) % 256;
        i += 1;
    }
    assert(bytes@ =~= octets(hex@));
    assert(all_hex(hex@));
    if bytes.len() != bytes[0] as usize + 5 {
        return Err("byte count does not match record length".to_owned());
    }
    if sum != 0 {
        return Err("invalid checksum".to_owned());
    }
    Ok(bytes)
}

/// Where reading stands between two records.
struct Scan {
    base: u32,
    segmented: bool,
    eof: bool,
    pieces: Vec<Chunk>,
}

impl View for Scan {
    type V = HexState;

    closed spec fn view(&self) -> HexState {
        HexState {
            base: self.base as int,
            segmented: self.segmented,
            eof: self.eof,
            pieces: pieces_of(self.pieces@),
        }
    }
}

/// Places data at `start`, or says why it cannot stand there.
fn place(
    pieces: &mut Vec<Chunk>,
    start: u64,
    payload: &[u8],
    flash_base: u32,
    flash_end: u32,
) -> (result: Result<(), String>)
    requires
        start + payload@.len() <= u64::MAX,
    ensures
        ({
            let p = Piece { address: start as int, data: payload@ };
            match result {
                Ok(()) => place_fault(p, flash_base, flash_end) is None && pieces_of(
                    final(pieces)@,
                ) == pieces_of(old(pieces)@).push(p),
                Err(message) => place_fault(p, flash_base, flash_end) == Some(message@),
            }
        }),
{
    let end: u64 = start + payload.len() as u64;
    if end > u32::MAX as u64 {
        return Err("address overflow".to_owned());
    }
    if start < flash_base as u64 || end > flash_end as u64 {
        let range = cat3(
            &cat("data range 0x", &hex8_plain_text(start)),
            "..0x",
            &hex8_plain_text(end),
        );
        let flash = cat3(&hex8_plain_text(flash_base as u64), "..0x", &hex8_plain_text(flash_end as u64));
        let message = cat3(&range, " is outside flash 0x", &flash);
        proof {
            let p = Piece { address: start as int, data: payload@ };
            assert(message@ =~= place_fault(p, flash_base, flash_end)->0);
        }
        return Err(message);
    }
    let mut data: Vec<u8> = Vec::new();
    data.extend_from_slice(payload);
    assert(data@ =~= payload@);
    let ghost before = pieces@;
    let chunk = Chunk { address: start as u32, data };
    pieces.push(chunk);
    assert(pieces_of(pieces@) =~= pieces_of(before).push(chunk@));
    Ok(())
}

/// Applies a record.
fn apply_record(scan: &mut Scan, bytes: &[u8], flash_base: u32, flash_end: u32) -> (result: Result<
    (),
    String,
>)
    requires
        bytes@.len() >= 5,
        bytes@.len() == bytes@[0] + 5,
        old(scan)@.base <= u32::MAX,
    ensures
        match result {
            Ok(()) => after_record(old(scan)@, bytes@, flash_base, flash_end) == Ok::<
                HexState,
                Seq<char>,
            >(final(scan)@),
            Err(message) => after_record(old(scan)@, bytes@, flash_base, flash_end) == Err::<
                HexState,
                Seq<char>,
            >(message@),
        },
{
    let count: usize = bytes[0] as usize;
    let offset: u32 = bytes[1] as u32 * 256 + bytes[2] as u32;
    let kind: u8 = bytes[3];
    let payload = slice_subrange(bytes, 4, 4 + count);
    if kind != 0 && offset != 0 {
        return Err("non-data record address must be zero".to_owned());
    }
    if kind == 0 {
        let ghost state = scan@;
        let ghost places = placed(state, offset as int, payload@);
        if count == 0 {
            assert(places_fault(places, flash_base, flash_end) is None);
            assert(state.pieces + places =~= state.pieces);
            return Ok(());
        }
        let first_len: usize = if scan.segmented && count > (0x10000 - offset) as usize {
            (0x10000 - offset) as usize
        } else {
            count
        };
        let first = slice_subrange(payload, 0, first_len);
        let rest = slice_subrange(payload, first_len, count);
        proof {
            assert(first@ =~= payload@.take(first_len as int));
            assert(rest@ =~= payload@.skip(first_len as int));
            reveal_with_fuel(places_fault, 3);
            if places.len() == 2 {
                assert(places.skip(1) =~= seq![places[1]]);
                assert(places.skip(1).skip(1) =~= Seq::empty());
            } else {
                assert(places.skip(1) =~= Seq::empty());
            }
        }
        match place(&mut scan.pieces, scan.base as u64 + offset as u64, first, flash_base, flash_end) {
            Ok(()) => {},
            Err(message) => return Err(message),
        }
        if first_len < count {
            match place(&mut scan.pieces, scan.base as u64, rest, flash_base, flash_end) {
                Ok(()) => {},
                Err(message) => return Err(message),
            }
        }
        assert(scan@.pieces =~= state.pieces + places);
        Ok(())
    } else if kind == 1 && count == 0 {
        scan.eof = true;
        Ok(())
    } else if (kind == 2 || kind == 4) && count == 2 {
        let address: u32 = payload[0] as u32 * 256 + payload[1] as u32;
        scan.segmented = kind == 2;
        scan.base = if kind == 2 {
            address * 16
        } else {
            address * 65536
        };
        Ok(())
    } else if (kind == 3 || kind == 5) && count == 4 {
        // Entry points do not change where data is programmed.
        Ok(())
    } else if kind <= 5 {
        Err("invalid byte count for record type".to_owned())
    } else {
        Err(cat("unsupported record type 0x", &hex2_text(kind)))
    }
}

/// Whether the piece has the byte `b` at address `a`.
pub open spec fn covers(p: Piece, a: int, b: u8) -> bool {
    p.address <= a < p.end() && p.data[a - p.address] == b
}

/// Whether the pieces have data, in ascending order and without overlap.
pub open spec fn ascending(s: Seq<Piece>) -> bool {
    &&& forall|i: int| 0 <= i < s.len() ==> (#[trigger] s[i]).data.len() > 0
    &&& forall|i: int, j: int|
        0 <= i < j < s.len() ==> (#[trigger] s[i]).end() <= (#[trigger] s[j]).address
}

/// The pieces of an ascending list, each joined to the one before it where they touch.
pub open spec fn joined_pieces(s: Seq<Piece>) -> Seq<Piece>
    decreases s.len(),
{
    if s.len() == 0 {
        Seq::empty()
    } else {
        let before = joined_pieces(s.drop_last());
        let p = s.last();
        if before.len() > 0 && before.last().end() == p.address {
            before.drop_last().push(
                Piece { address: before.last().address, data: before.last().data + p.data },
            )
        } else {
            before.push(p)
        }
    }
}

/// What one more piece adds.
proof fn lemma_holds_push(s: Seq<Piece>, p: Piece)
    ensures
        forall|a: int, b: u8| #[trigger] holds(s.push(p), a, b) <==> holds(s, a, b) || covers(p, a, b),
{
    let t = s.push(p);
    assert forall|a: int, b: u8| #[trigger] holds(t, a, b) <==> holds(s, a, b) || covers(p, a, b) by {
        if holds(t, a, b) {
            let i = choose|i: int| #[trigger] piece_holds(t, i, a, b);
            if i < s.len() {
                assert(piece_holds(s, i, a, b));
            }
        }
        if holds(s, a, b) {
            let i = choose|i: int| #[trigger] piece_holds(s, i, a, b);
            assert(piece_holds(t, i, a, b));
        }
        if covers(p, a, b) {
            assert(piece_holds(t, s.len() as int, a, b));
        }
    }
}

/// Joining an ascending list gives its data with a gap between each two chunks.
proof fn lemma_joined_pieces(s: Seq<Piece>)
    requires
        ascending(s),
    ensures
        is_merged(joined_pieces(s), s),
        s.len() > 0 ==> joined_pieces(s).len() > 0 && joined_pieces(s).last().end() == s.last().end(),
    decreases s.len(),
{
    let c = joined_pieces(s);
    if s.len() == 0 {
        assert forall|a: int, b: u8| #[trigger] holds(c, a, b) <==> holds(s, a, b) by {
            assert(c =~= s);
        }
    } else {
        let rest = s.drop_last();
        let p = s.last();
        let m = joined_pieces(rest);
        lemma_joined_pieces(rest);
        assert(rest.push(p) =~= s);
        lemma_holds_push(rest, p);
        assert forall|i: int| 0 <= i < m.len() implies (#[trigger] m[i]).end() <= p.address by {
            assert(rest.len() > 0) by {
                if rest.len() == 0 {
                    assert(m.len() == 0);
                }
            }
            assert(rest.last() == s[s.len() - 2]);
            if i < m.len() - 1 {
                assert(m[i].end() < m[m.len() - 1].address);
            }
        }
        if m.len() > 0 && m.last().end() == p.address {
            let last = m.last();
            let both = Piece { address: last.address, data: last.data + p.data };
            let head = m.drop_last();
            assert(head.push(last) =~= m);
            lemma_holds_push(head, last);
            lemma_holds_push(head, both);
            assert forall|a: int, b: u8| covers(both, a, b) <==> #[trigger] covers(last, a, b) || covers(
                p,
                a,
                b,
            ) by {}
            assert forall|a: int, b: u8| #[trigger] holds(c, a, b) <==> holds(s, a, b) by {
                assert(covers(both, a, b) <==> covers(last, a, b) || covers(p, a, b));
                assert(holds(m, a, b) <==> holds(rest, a, b));
            }
            assert forall|i: int, j: int| 0 <= i < j < c.len() implies (#[trigger] c[i]).end() < (
            #[trigger] c[j]).address by {
                assert(m[i].end() < m[j].address);
            }
        } else {
            lemma_holds_push(m, p);
            assert forall|a: int, b: u8| #[trigger] holds(c, a, b) <==> holds(s, a, b) by {
                assert(holds(m, a, b) <==> holds(rest, a, b));
            }
            assert forall|i: int, j: int| 0 <= i < j < c.len() implies (#[trigger] c[i]).end() < (
            #[trigger] c[j]).address by {
                if j < m.len() {
                    assert(m[i].end() < m[j].address);
                } else if i < m.len() - 1 {
                    assert(m[i].end() < m[m.len() - 1].address);
                }
            }
        }
    }
}

/// Whether the pieces have data, with a gap between each two of them.
pub open spec fn separated(s: Seq<Piece>) -> bool {
    &&& forall|i: int| 0 <= i < s.len() ==> (#[trigger] s[i]).data.len() > 0
    &&& forall|i: int, j: int|
        0 <= i < j < s.len() ==> (#[trigger] s[i]).end() < (#[trigger] s[j]).address
}

/// In a separated list, the byte at an address of a piece is that of the piece.
proof fn lemma_separated_byte(s: Seq<Piece>, i: int, a: int, b: u8)
    requires
        separated(s),
        0 <= i < s.len(),
        s[i].address <= a < s[i].end(),
    ensures
        holds(s, a, b) <==> s[i].data[a - s[i].address] == b,
{
    if holds(s, a, b) {
        let k = choose|k: int| #[trigger] piece_holds(s, k, a, b);
        if k < i {
            assert(s[k].end() < s[i].address);
        } else if i < k {
            assert(s[i].end() < s[k].address);
        }
    }
    if s[i].data[a - s[i].address] == b {
        assert(piece_holds(s, i, a, b));
    }
}

/// No byte lies before the first piece, or directly behind it.
proof fn lemma_separated_edges(s: Seq<Piece>, a: int, b: u8)
    requires
        separated(s),
        s.len() > 0,
        a < s[0].address || a == s[0].end(),
    ensures
        !holds(s, a, b),
{
    if holds(s, a, b) {
        let k = choose|k: int| #[trigger] piece_holds(s, k, a, b);
        if k > 0 {
            assert(s[0].end() < s[k].address);
        }
    }
}

/// The first chunk reaches no further than the first chunk of a list with the same bytes.
proof fn lemma_first_piece(x: Seq<Piece>, y: Seq<Piece>)
    requires
        separated(x),
        separated(y),
        x.len() > 0,
        y.len() > 0,
        forall|a: int, b: u8| #[trigger] holds(x, a, b) <==> holds(y, a, b),
    ensures
        x[0].address >= y[0].address,
        x[0].address == y[0].address ==> x[0].end() <= y[0].end(),
{
    let first = x[0].data[0];
    lemma_separated_byte(x, 0, x[0].address, first);
    if x[0].address < y[0].address {
        lemma_separated_edges(y, x[0].address, first);
    }
    if x[0].address == y[0].address && y[0].end() < x[0].end() {
        let a = y[0].end();
        let b = x[0].data[a - x[0].address];
        lemma_separated_byte(x, 0, a, b);
        lemma_separated_edges(y, a, b);
    }
}

/// Two lists of chunks with a gap between each two chunks and with the same bytes at the same
/// addresses are equal.
pub proof fn law_chunks_are_determined_by_their_bytes(x: Seq<Piece>, y: Seq<Piece>)
    requires
        separated(x),
        separated(y),
        forall|a: int, b: u8| #[trigger] holds(x, a, b) <==> holds(y, a, b),
    ensures
        x == y,
    decreases x.len(),
{
    if x.len() == 0 || y.len() == 0 {
        if x.len() > 0 {
            lemma_separated_byte(x, 0, x[0].address, x[0].data[0]);
            let k = choose|k: int| #[trigger] piece_holds(y, k, x[0].address, x[0].data[0]);
        }
        if y.len() > 0 {
            lemma_separated_byte(y, 0, y[0].address, y[0].data[0]);
            assert(holds(x, y[0].address, y[0].data[0]));
            let k = choose|k: int| #[trigger] piece_holds(x, k, y[0].address, y[0].data[0]);
        }
        assert(x =~= y);
    } else {
        lemma_first_piece(x, y);
        lemma_first_piece(y, x);
        assert forall|i: int| 0 <= i < x[0].data.len() implies x[0].data[i] == y[0].data[i] by {
            let a = x[0].address + i;
            lemma_separated_byte(x, 0, a, x[0].data[i]);
            lemma_separated_byte(y, 0, a, x[0].data[i]);
        }
        assert(x[0] =~= y[0]);
        let x1 = x.skip(1);
        let y1 = y.skip(1);
        assert(separated(x1));
        assert(separated(y1));
        assert forall|a: int, b: u8| #[trigger] holds(x1, a, b) <==> holds(y1, a, b) by {
            lemma_holds_skip(x, a, b);
            lemma_holds_skip(y, a, b);
        }
        law_chunks_are_determined_by_their_bytes(x1, y1);
        assert(x =~= seq![x[0]] + x1);
        assert(y =~= seq![y[0]] + y1);
    }
}

/// What the chunks behind the first one hold.
proof fn lemma_holds_skip(x: Seq<Piece>, a: int, b: u8)
    requires
        separated(x),
        x.len() > 0,
    ensures
        holds(x.skip(1), a, b) <==> holds(x, a, b) && a >= x[0].end(),
{
    let x1 = x.skip(1);
    if holds(x1, a, b) {
        let k = choose|k: int| #[trigger] piece_holds(x1, k, a, b);
        assert(piece_holds(x, k + 1, a, b));
        assert(x[0].end() < x[k + 1].address);
    }
    if holds(x, a, b) && a >= x[0].end() {
        let k = choose|k: int| #[trigger] piece_holds(x, k, a, b);
        assert(piece_holds(x1, k - 1, a, b));
    }
}

/// The merged form of some pieces is the joined form of the same pieces in ascending order.
proof fn lemma_merged_is(pieces: Seq<Piece>, s: Seq<Piece>)
    requires
        ascending(s),
        forall|a: int, b: u8| #[trigger] holds(s, a, b) <==> holds(pieces, a, b),
    ensures
        is_merged(joined_pieces(s), pieces),
        merged(pieces) == joined_pieces(s),
{
    lemma_joined_pieces(s);
    let c = joined_pieces(s);
    assert forall|a: int, b: u8| #[trigger] holds(c, a, b) <==> holds(pieces, a, b) by {
        assert(holds(c, a, b) <==> holds(s, a, b));
    }
    assert(is_merged(c, pieces));
    let m = merged(pieces);
    assert(is_merged(m, pieces));
    assert forall|a: int, b: u8| #[trigger] holds(m, a, b) <==> holds(c, a, b) by {
        assert(holds(c, a, b) <==> holds(pieces, a, b));
    }
    law_chunks_are_determined_by_their_bytes(m, c);
}

/// The pieces that `order` names, in its order.
pub open spec fn arranged(pieces: Seq<Piece>, order: Seq<(u32, u64)>) -> Seq<Piece> {
    Seq::new(order.len(), |t: int| pieces[order[t].1 as int])
}

/// The address and the index of each piece.
pub open spec fn keys_of(pieces: Seq<Piece>) -> Seq<(u32, u64)> {
    Seq::new(pieces.len(), |i: int| (pieces[i].address as u32, i as u64))
}

/// Whether `order` names piece `i`.
pub open spec fn names(order: Seq<(u32, u64)>, i: int) -> bool {
    exists|t: int| 0 <= t < order.len() && (#[trigger] order[t]).1 == i
}

/// Whether `order` names each piece once, in the order of the addresses.
pub open spec fn is_arrangement(pieces: Seq<Piece>, order: Seq<(u32, u64)>) -> bool {
    &&& order.len() == pieces.len()
    &&& forall|t: int|
        0 <= t < order.len() ==> (#[trigger] order[t]).1 < pieces.len() && order[t].0
            == pieces[order[t].1 as int].address
    &&& forall|t: int, u: int|
        0 <= t < u < order.len() ==> (#[trigger] order[t]).1 != (#[trigger] order[u]).1
            && order[t].0 <= order[u].0
    &&& forall|i: int| 0 <= i < pieces.len() ==> #[trigger] names(order, i)
}

/// Sorting the keys names each piece once, in the order of the addresses.
proof fn lemma_sorted_keys(pieces: Seq<Piece>, order: Seq<(u32, u64)>)
    requires
        order == order::in_order(keys_of(pieces)),
        pieces.len() <= u64::MAX,
        forall|i: int|
            0 <= i < pieces.len() ==> 0 <= (#[trigger] pieces[i]).address <= u32::MAX,
    ensures
        is_arrangement(pieces, order),
{
    let keys = keys_of(pieces);
    order::lemma_in_order_ensures(keys);
    keys.to_multiset_ensures();
    order.to_multiset_ensures();
    assert(keys.no_duplicates());
    keys.lemma_multiset_has_no_duplicates();
    order.lemma_multiset_has_no_duplicates_conv();
    assert forall|t: int| 0 <= t < order.len() implies (#[trigger] order[t]).1 < pieces.len()
        && order[t].0 == pieces[order[t].1 as int].address by {
        assert(order.contains(order[t]));
        assert(order.to_multiset().count(order[t]) > 0);
        assert(keys.contains(order[t]));
        let i = choose|i: int| 0 <= i < keys.len() && keys[i] == order[t];
        assert(keys[i].1 == i);
    }
    assert forall|t: int, u: int| 0 <= t < u < order.len() implies (#[trigger] order[t]).1 != (
    #[trigger] order[u]).1 && order[t].0 <= order[u].0 by {
        assert(order::pair_le(order[t], order[u]));
        assert(order[t] != order[u]);
    }
    assert forall|i: int| 0 <= i < pieces.len() implies #[trigger] names(order, i) by {
        assert(keys[i].1 == i);
        assert(keys.contains(keys[i]));
        assert(keys.to_multiset().count(keys[i]) > 0);
        assert(order.contains(keys[i]));
        let t = choose|t: int| 0 <= t < order.len() && order[t] == keys[i];
        assert(order[t].1 == i);
    }
}

/// An arrangement holds the same bytes.
proof fn lemma_arranged_holds(pieces: Seq<Piece>, order: Seq<(u32, u64)>)
    requires
        is_arrangement(pieces, order),
    ensures
        forall|a: int, b: u8|
            #[trigger] holds(arranged(pieces, order), a, b) <==> holds(pieces, a, b),
{
    let s = arranged(pieces, order);
    assert forall|a: int, b: u8| #[trigger] holds(s, a, b) <==> holds(pieces, a, b) by {
        if holds(s, a, b) {
            let t = choose|t: int| #[trigger] piece_holds(s, t, a, b);
            assert(piece_holds(pieces, order[t].1 as int, a, b));
        }
        if holds(pieces, a, b) {
            let i = choose|i: int| #[trigger] piece_holds(pieces, i, a, b);
            assert(names(order, i));
            let t = choose|t: int| 0 <= t < order.len() && (#[trigger] order[t]).1 == i;
            assert(piece_holds(s, t, a, b));
        }
    }
}

/// A clash between two pieces, seen in an arrangement: the earlier one reaches past the start of
/// the later one.
proof fn lemma_clash_positions(pieces: Seq<Piece>, order: Seq<(u32, u64)>, a: int) -> (r: (int, int))
    requires
        is_arrangement(pieces, order),
        clash_at(pieces, a),
        forall|i: int| 0 <= i < pieces.len() ==> (#[trigger] pieces[i]).data.len() > 0,
    ensures
        ({
            let s = arranged(pieces, order);
            let (t, u) = r;
            0 <= t < u < s.len() && s[u].address == a && s[u].address < s[t].end()
        }),
{
    let s = arranged(pieces, order);
    let (i, j) = choose|i: int, j: int| #[trigger] clash_of(pieces, i, j, a);
    assert(names(order, i) && names(order, j));
    let t = choose|t: int| 0 <= t < order.len() && (#[trigger] order[t]).1 == i;
    let u = choose|u: int| 0 <= u < order.len() && (#[trigger] order[u]).1 == j;
    if t < u {
        (t, u)
    } else {
        assert(order[u].0 <= order[t].0);
        (u, t)
    }
}

/// The first piece of an arrangement that starts inside the one before it starts at the lowest
/// clash.
proof fn lemma_first_clash(pieces: Seq<Piece>, order: Seq<(u32, u64)>, k: int)
    requires
        is_arrangement(pieces, order),
        forall|i: int| 0 <= i < pieces.len() ==> (#[trigger] pieces[i]).data.len() > 0,
        0 < k < order.len(),
        ascending(arranged(pieces, order).take(k)),
        arranged(pieces, order)[k].address < arranged(pieces, order)[k - 1].end(),
    ensures
        first_clash(pieces, order[k].0 as int),
        (choose|a: int| first_clash(pieces, a)) == order[k].0,
{
    let s = arranged(pieces, order);
    let a = order[k].0 as int;
    assert(order[k - 1].0 <= order[k].0 && order[k - 1].1 != order[k].1);
    assert(clash_of(pieces, order[k - 1].1 as int, order[k].1 as int, a));
    assert(clash_at(pieces, a));
    assert forall|b: int| #[trigger] clash_at(pieces, b) implies a <= b by {
        let (t, u) = lemma_clash_positions(pieces, order, b);
        if u < k {
            let h = s.take(k);
            assert(h[t].end() <= h[u].address);
        } else if u > k {
            assert(order[k].0 <= order[u].0);
        }
    }
    assert(first_clash(pieces, a));
    let c = choose|a: int| first_clash(pieces, a);
    assert(first_clash(pieces, c));
}

/// Pieces that can be arranged in ascending order do not clash.
proof fn lemma_no_clash(pieces: Seq<Piece>, order: Seq<(u32, u64)>)
    requires
        is_arrangement(pieces, order),
        ascending(arranged(pieces, order)),
    ensures
        !exists|a: int| #[trigger] clash_at(pieces, a),
{
    let s = arranged(pieces, order);
    assert forall|i: int| 0 <= i < pieces.len() implies (#[trigger] pieces[i]).data.len() > 0 by {
        assert(names(order, i));
        let t = choose|t: int| 0 <= t < order.len() && (#[trigger] order[t]).1 == i;
        assert(s[t].data.len() > 0);
    }
    assert forall|a: int| !#[trigger] clash_at(pieces, a) by {
        if clash_at(pieces, a) {
            let (t, u) = lemma_clash_positions(pieces, order, a);
            assert(s[t].end() <= s[u].address);
        }
    }
}

/// Whether reading may stand here: a base that records can set, and only data inside flash.
pub open spec fn is_sound(state: HexState, flash_base: u32, flash_end: u32) -> bool {
    &&& 0 <= state.base <= 0xffff0000
    &&& forall|i: int|
        0 <= i < state.pieces.len() ==> in_flash(#[trigger] state.pieces[i], flash_base, flash_end)
}

/// Whether a piece has data, all of it inside flash.
pub open spec fn in_flash(p: Piece, flash_base: u32, flash_end: u32) -> bool {
    p.data.len() > 0 && flash_base <= p.address && p.end() <= flash_end
}

/// Places without a fault lie in flash.
proof fn lemma_places_in_flash(places: Seq<Piece>, flash_base: u32, flash_end: u32)
    requires
        places_fault(places, flash_base, flash_end) is None,
        forall|i: int| 0 <= i < places.len() ==> (#[trigger] places[i]).data.len() > 0,
    ensures
        forall|i: int|
            0 <= i < places.len() ==> in_flash(#[trigger] places[i], flash_base, flash_end),
    decreases places.len(),
{
    if places.len() > 0 {
        let rest = places.skip(1);
        assert forall|i: int| 0 <= i < rest.len() implies (#[trigger] rest[i]).data.len() > 0 by {
            assert(rest[i] == places[i + 1]);
        }
        lemma_places_in_flash(rest, flash_base, flash_end);
        assert forall|i: int| 0 <= i < places.len() implies in_flash(
            #[trigger] places[i],
            flash_base,
            flash_end,
        ) by {
            if i > 0 {
                assert(places[i] == rest[i - 1]);
            }
        }
    }
}

/// A record keeps the state sound.
proof fn lemma_after_record_sound(state: HexState, bytes: Seq<u8>, flash_base: u32, flash_end: u32)
    requires
        is_sound(state, flash_base, flash_end),
        bytes.len() >= 5,
        bytes.len() == bytes[0] + 5,
    ensures
        after_record(state, bytes, flash_base, flash_end) matches Ok(next) ==> is_sound(
            next,
            flash_base,
            flash_end,
        ),
{
    if after_record(state, bytes, flash_base, flash_end) is Ok && bytes[3] == 0 {
        let payload = bytes.subrange(4, 4 + bytes[0] as int);
        let places = placed(state, be16(bytes[1], bytes[2]), payload);
        assert forall|i: int| 0 <= i < places.len() implies (#[trigger] places[i]).data.len() > 0 by {}
        lemma_places_in_flash(places, flash_base, flash_end);
    }
}

/// A record that was decoded has as many bytes as it says.
proof fn lemma_record_len(line: Seq<u8>)
    ensures
        record_bytes(line) matches Ok(bytes) ==> bytes.len() >= 5 && bytes.len() == bytes[0] + 5,
{
}

/// A line keeps the state sound.
proof fn lemma_after_line_sound(state: HexState, line: Seq<u8>, flash_base: u32, flash_end: u32)
    requires
        is_sound(state, flash_base, flash_end),
    ensures
        after_line(state, line, flash_base, flash_end) matches Ok(next) ==> is_sound(
            next,
            flash_base,
            flash_end,
        ),
{
    let record = without_return(line);
    lemma_record_len(record);
    if record_bytes(record) is Ok {
        lemma_after_record_sound(state, record_bytes(record)->Ok_0, flash_base, flash_end);
    }
}

/// Reading lines keeps the state sound.
pub(crate) proof fn lemma_after_lines_sound(lines: Seq<Seq<u8>>, n: int, flash_base: u32, flash_end: u32)
    requires
        0 <= n <= lines.len(),
    ensures
        after_lines(lines, n, flash_base, flash_end) matches Ok(state) ==> is_sound(
            state,
            flash_base,
            flash_end,
        ),
    decreases n,
{
    if n > 0 {
        lemma_after_lines_sound(lines, n - 1, flash_base, flash_end);
        if after_lines(lines, n - 1, flash_base, flash_end) is Ok {
            lemma_after_line_sound(
                after_lines(lines, n - 1, flash_base, flash_end)->Ok_0,
                lines[n - 1],
                flash_base,
                flash_end,
            );
        }
    }
}

/// The keys of some pieces.
fn piece_keys(pieces: &Vec<Chunk>) -> (keys: Vec<(u32, u64)>)
    ensures
        keys@ == keys_of(pieces_of(pieces@)),
{
    let mut keys: Vec<(u32, u64)> = Vec::new();
    let mut i: usize = 0;
    while i < pieces.len()
        invariant
            i <= pieces@.len(),
            keys@ == keys_of(pieces_of(pieces@)).take(i as int),
        decreases pieces@.len() - i,
    {
        keys.push((pieces[i].address, i as u64));
        assert(keys@ =~= keys_of(pieces_of(pieces@)).take(i + 1));
        i += 1;
    }
    assert(keys@ =~= keys_of(pieces_of(pieces@)));
    keys
}

/// The data of some pieces in ascending order, or where they overlap.
fn merge_pieces(pieces: &Vec<Chunk>) -> (result: Result<Vec<Chunk>, String>)
    requires
        pieces@.len() > 0,
        forall|i: int|
            0 <= i < pieces@.len() ==> (#[trigger] pieces@[i]).data@.len() > 0 && pieces@[i]@.end()
                <= u32::MAX,
    ensures
        ({
            let all = pieces_of(pieces@);
            match result {
                Ok(chunks) => !(exists|a: int| #[trigger] clash_at(all, a)) && pieces_of(chunks@)
                    == merged(all),
                Err(message) => (exists|a: int| #[trigger] clash_at(all, a)) && message@
                    == "Intel HEX data overlaps at 0x"@ + text::hex8_plain(
                    (choose|a: int| first_clash(all, a)) as nat,
                ),
            }
        }),
{
    let count: usize = pieces.len();
    let keys = piece_keys(pieces);
    let order = sort_pairs(&keys);
    let ghost all = pieces_of(pieces@);
    let ghost s = arranged(all, order@);
    proof {
        assert forall|i: int| 0 <= i < all.len() implies 0 <= (#[trigger] all[i]).address <= u32::MAX
            && all[i].data.len() > 0 && all[i].end() <= u32::MAX by {
            assert(all[i] == pieces@[i]@);
        }
        lemma_sorted_keys(all, order@);
        lemma_arranged_holds(all, order@);
        assert forall|t: int| 0 <= t < s.len() implies (#[trigger] s[t]).address == order@[t].0
            && s[t].data.len() > 0 && s[t].end() <= u32::MAX by {
            assert(s[t] == all[order@[t].1 as int]);
        }
    }
    let mut chunks: Vec<Chunk> = Vec::new();
    let mut address: u32 = order[0].0;
    let mut data: Vec<u8> = Vec::new();
    data.extend_from_slice(pieces[order[0].1 as usize].data.as_slice());
    proof {
        assert(data@ =~= s[0].data);
        assert(s.take(1).drop_last() =~= Seq::empty());
        assert(joined_pieces(s.take(1).drop_last()) =~= Seq::empty());
        assert(pieces_of(chunks@).push(Piece { address: address as int, data: data@ })
            =~= joined_pieces(s.take(1)));
    }
    let mut k: usize = 1;
    while k < order.len()
        invariant
            1 <= k <= order@.len(),
            all == pieces_of(pieces@),
            s == arranged(all, order@),
            is_arrangement(all, order@),
            forall|i: int| 0 <= i < all.len() ==> (#[trigger] all[i]).data.len() > 0,
            forall|t: int|
                0 <= t < s.len() ==> (#[trigger] s[t]).address == order@[t].0 && s[t].data.len() > 0
                    && s[t].end() <= u32::MAX,
            ascending(s.take(k as int)),
            pieces_of(chunks@).push(Piece { address: address as int, data: data@ })
                == joined_pieces(s.take(k as int)),
            address + data@.len() == s[k - 1].end(),
        decreases order@.len() - k,
    {
        let start: u32 = order[k].0;
        let end: u64 = address as u64 + data.len() as u64;
        if (start as u64) < end {
            proof {
                lemma_first_clash(all, order@, k as int);
            }
            return Err(cat("Intel HEX data overlaps at 0x", &hex8_plain_text(start as u64)));
        }
        let ghost before = s.take(k as int);
        let ghost more = s.take(k + 1);
        proof {
            assert(more.drop_last() =~= before);
            assert(more.last() == s[k as int]);
            assert forall|i: int, j: int| 0 <= i < j < more.len() implies (#[trigger] more[i]).end()
                <= (#[trigger] more[j]).address by {
                if j < k {
                    assert(before[i].end() <= before[j].address);
                } else if i < k - 1 {
                    assert(before[i].end() <= before[k - 1].address);
                }
            }
            assert(joined_pieces(before).last() == Piece { address: address as int, data: data@ });
            assert(joined_pieces(before).drop_last() =~= pieces_of(chunks@));
        }
        if start as u64 == end {
            let ghost old_data = data@;
            data.extend_from_slice(pieces[order[k].1 as usize].data.as_slice());
            assert(data@ =~= old_data + s[k as int].data);
        } else {
            let ghost old_chunks = chunks@;
            let chunk = Chunk { address, data };
            chunks.push(chunk);
            assert(pieces_of(chunks@) =~= pieces_of(old_chunks).push(chunk@));
            address = start;
            data = Vec::new();
            data.extend_from_slice(pieces[order[k].1 as usize].data.as_slice());
            assert(data@ =~= s[k as int].data);
        }
        assert(pieces_of(chunks@).push(Piece { address: address as int, data: data@ })
            =~= joined_pieces(more));
        k += 1;
    }
    let ghost old_chunks = chunks@;
    let chunk = Chunk { address, data };
    chunks.push(chunk);
    proof {
        assert(pieces_of(chunks@) =~= pieces_of(old_chunks).push(chunk@));
        assert(s.take(k as int) =~= s);
        lemma_no_clash(all, order@);
        lemma_merged_is(all, s);
    }
    Ok(chunks)
}

/// Applies a line.
fn scan_line(scan: &mut Scan, line: &[u8], flash_base: u32, flash_end: u32) -> (result: Result<
    (),
    String,
>)
    requires
        is_sound(old(scan)@, flash_base, flash_end),
    ensures
        match result {
            Ok(()) => after_line(old(scan)@, line@, flash_base, flash_end) == Ok::<
                HexState,
                Seq<char>,
            >(final(scan)@),
            Err(message) => after_line(old(scan)@, line@, flash_base, flash_end) == Err::<
                HexState,
                Seq<char>,
            >(message@),
        },
{
    let len: usize = line.len();
    let end: usize = if len > 0 && line[len - 1] == 13 {
        len - 1
    } else {
        len
    };
    let record = slice_subrange(line, 0, end);
    proof {
        assert(record@ =~= without_return(line@));
        lemma_record_len(record@);
    }
    if end == 0 {
        return Ok(());
    }
    if scan.eof {
        return Err("unexpected content after end-of-file record".to_owned());
    }
    let bytes = decode_record(record)?;
    apply_record(scan, &bytes, flash_base, flash_end)
}

/// Once a line is bad, more lines do not change what is reported.
proof fn lemma_error_stays(
    lines: Seq<Seq<u8>>,
    n: int,
    m: int,
    flash_base: u32,
    flash_end: u32,
)
    requires
        0 <= n <= m,
        after_lines(lines, n, flash_base, flash_end) is Err,
    ensures
        after_lines(lines, m, flash_base, flash_end) == after_lines(
            lines,
            n,
            flash_base,
            flash_end,
        ),
    decreases m - n,
{
    if n < m {
        lemma_error_stays(lines, n, m - 1, flash_base, flash_end);
    }
}

/// Checks the records of an Intel HEX file and returns its data in ascending order, with a gap
/// between each two chunks.
pub fn parse(data: &[u8], flash_base: u32, flash_end: u32) -> (result: Result<Vec<Chunk>, String>)
    ensures
        match result {
            Ok(chunks) => hex_image(data@, flash_base, flash_end) == Ok::<Seq<Piece>, Seq<char>>(
                pieces_of(chunks@),
            ),
            Err(message) => hex_image(data@, flash_base, flash_end) == Err::<Seq<Piece>, Seq<char>>(
                message@,
            ),
        },
{
    let mut scan = Scan { base: 0, segmented: false, eof: false, pieces: Vec::new() };
    let len: usize = data.len();
    let mut from: usize = 0;
    let mut number: u128 = 0;
    let ghost lines = lines_of(data@);
    proof {
        assert(scan@ =~= hex_start());
        assert(data@.skip(0) =~= data@);
        assert(lines.skip(0) =~= lines);
    }
    loop
        invariant_except_break
            from <= len == data@.len(),
            lines == lines_of(data@),
            number <= from,
            number < lines.len(),
            lines.skip(number as int) == lines_of(data@.skip(from as int)),
            after_lines(lines, number as int, flash_base, flash_end) == Ok::<HexState, Seq<char>>(
                scan@,
            ),
            is_sound(scan@, flash_base, flash_end),
        ensures
            after_lines(lines, lines.len() as int, flash_base, flash_end) == Ok::<
                HexState,
                Seq<char>,
            >(scan@),
            is_sound(scan@, flash_base, flash_end),
        decreases len - from,
    {
        let ghost rest = data@.skip(from as int);
        let mut to: usize = from;
        while to < len && data[to] != 10
            invariant
                from <= to <= len == data@.len(),
                rest == data@.skip(from as int),
                forall|i: int| 0 <= i < to - from ==> #[trigger] rest[i] != 10,
            decreases len - to,
        {
            assert(rest[to - from] == data@[to as int]);
            to += 1;
        }
        let ghost line = data@.subrange(from as int, to as int);
        proof {
            if to < len {
                assert(rest[to - from] == data@[to as int]);
            }
            lemma_line_len_is(rest, (to - from) as nat);
            assert(rest.take(to - from) =~= line);
            if to < len {
                assert(rest.skip(to - from + 1) =~= data@.skip(to + 1));
            } else {
                assert(rest =~= line);
            }
            assert(lines.skip(number as int)[0] == line);
            assert(lines[number as int] == line);
        }
        number += 1;
        proof {
            lemma_after_line_sound(scan@, line, flash_base, flash_end);
        }
        match scan_line(&mut scan, slice_subrange(data, from, to), flash_base, flash_end) {
            Ok(()) => {},
            Err(message) => {
                proof {
                    lemma_error_stays(lines, number as int, lines.len() as int, flash_base, flash_end);
                }
                return Err(
                    cat3(&cat("Intel HEX line ", &digits_text(number, 10)), ": ", &message),
                );
            },
        }
        if to == len {
            assert(lines.skip(number - 1).len() == 1);
            break;
        }
        assert(lines.skip(number as int) =~= lines.skip(number - 1).skip(1));
        assert(lines.skip(number as int) =~= lines_of(data@.skip(to + 1)));
        from = to + 1;
        proof {
            lemma_lines_nonempty(data@.skip(from as int));
        }
    }
    if !scan.eof {
        return Err("Intel HEX is missing an end-of-file record".to_owned());
    }
    if scan.pieces.len() == 0 {
        return Err("Intel HEX contains no data".to_owned());
    }
    proof {
        assert forall|i: int| 0 <= i < scan.pieces@.len() implies (
        #[trigger] scan.pieces@[i]).data@.len() > 0 && scan.pieces@[i]@.end() <= u32::MAX by {
            assert(in_flash(scan@.pieces[i], flash_base, flash_end));
        }
    }
    merge_pieces(&scan.pieces)
}

/// A file has at least one line.
proof fn lemma_lines_nonempty(data: Seq<u8>)
    ensures
        lines_of(data).len() > 0,
{
}

/// A non-empty list has a piece whose address is highest.
proof fn lemma_highest(pieces: Seq<Piece>) -> (m: int)
    requires
        pieces.len() > 0,
    ensures
        0 <= m < pieces.len(),
        forall|i: int| 0 <= i < pieces.len() ==> (#[trigger] pieces[i]).address <= pieces[m].address,
    decreases pieces.len(),
{
    if pieces.len() == 1 {
        0
    } else {
        let rest = pieces.drop_last();
        let m = lemma_highest(rest);
        let last = pieces.len() - 1;
        let r = if pieces[last].address >= pieces[m].address {
            last
        } else {
            m
        };
        assert forall|i: int| 0 <= i < pieces.len() implies (#[trigger] pieces[i]).address
            <= pieces[r].address by {
            if i < last {
                assert(pieces[i] == rest[i]);
            }
        }
        r
    }
}

/// Pieces without a clash can be put in ascending order.
proof fn lemma_can_be_arranged(pieces: Seq<Piece>) -> (s: Seq<Piece>)
    requires
        forall|i: int| 0 <= i < pieces.len() ==> (#[trigger] pieces[i]).data.len() > 0,
        !(exists|a: int| #[trigger] clash_at(pieces, a)),
    ensures
        ascending(s),
        s.len() == pieces.len(),
        forall|a: int, b: u8| #[trigger] holds(s, a, b) <==> holds(pieces, a, b),
        forall|t: int| 0 <= t < s.len() ==> #[trigger] pieces.contains(s[t]),
    decreases pieces.len(),
{
    if pieces.len() == 0 {
        pieces
    } else {
        let m = lemma_highest(pieces);
        let top = pieces[m];
        let rest = pieces.remove(m);
        assert forall|i: int| 0 <= i < rest.len() implies (#[trigger] rest[i]).data.len() > 0 by {
            let o = if i < m {
                i
            } else {
                i + 1
            };
            assert(rest[i] == pieces[o]);
        }
        assert forall|a: int| !#[trigger] clash_at(rest, a) by {
            if clash_at(rest, a) {
                let (i, j) = choose|i: int, j: int| #[trigger] clash_of(rest, i, j, a);
                let oi = if i < m {
                    i
                } else {
                    i + 1
                };
                let oj = if j < m {
                    j
                } else {
                    j + 1
                };
                assert(clash_of(pieces, oi, oj, a));
                assert(clash_at(pieces, a));
            }
        }
        let s = lemma_can_be_arranged(rest);
        let r = s.push(top);
        assert forall|t: int| 0 <= t < s.len() implies (#[trigger] s[t]).end() <= top.address
            && pieces.contains(s[t]) by {
            assert(rest.contains(s[t]));
            let i = choose|i: int| 0 <= i < rest.len() && rest[i] == s[t];
            let o = if i < m {
                i
            } else {
                i + 1
            };
            assert(pieces[o] == s[t]);
            if s[t].end() > top.address {
                assert(clash_of(pieces, o, m, top.address));
                assert(clash_at(pieces, top.address));
            }
        }
        assert forall|t: int| 0 <= t < r.len() implies #[trigger] pieces.contains(r[t]) by {
            if t < s.len() {
                assert(r[t] == s[t]);
            } else {
                assert(pieces[m] == r[t]);
            }
        }
        lemma_holds_push(s, top);
        assert forall|a: int, b: u8| #[trigger] holds(r, a, b) <==> holds(pieces, a, b) by {
            assert(holds(s, a, b) <==> holds(rest, a, b));
            if holds(rest, a, b) {
                let i = choose|i: int| #[trigger] piece_holds(rest, i, a, b);
                let o = if i < m {
                    i
                } else {
                    i + 1
                };
                assert(piece_holds(pieces, o, a, b));
            }
            if covers(top, a, b) {
                assert(piece_holds(pieces, m, a, b));
            }
            if holds(pieces, a, b) {
                let i = choose|i: int| #[trigger] piece_holds(pieces, i, a, b);
                if i < m {
                    assert(piece_holds(rest, i, a, b));
                } else if i > m {
                    assert(piece_holds(rest, i - 1, a, b));
                }
            }
        }
        r
    }
}

/// An image that is accepted is the data of its records: each byte of a data record stands at its
/// address, and no other byte stands anywhere. Its chunks are in ascending order with a gap
/// between each two, have data, and lie inside flash.
pub proof fn law_accepted_image(lines: Seq<Seq<u8>>, flash_base: u32, flash_end: u32)
    ensures
        image_of_lines(lines, flash_base, flash_end) matches Ok(chunks) ==> {
            let state = after_lines(lines, lines.len() as int, flash_base, flash_end);
            &&& state is Ok
            &&& chunks.len() > 0
            &&& separated(chunks)
            &&& forall|a: int, b: u8|
                #[trigger] holds(chunks, a, b) <==> holds(state->Ok_0.pieces, a, b)
            &&& forall|i: int|
                0 <= i < chunks.len() ==> in_flash(#[trigger] chunks[i], flash_base, flash_end)
        },
{
    if image_of_lines(lines, flash_base, flash_end) is Ok {
        lemma_after_lines_sound(lines, lines.len() as int, flash_base, flash_end);
        let state = after_lines(lines, lines.len() as int, flash_base, flash_end)->Ok_0;
        let pieces = state.pieces;
        assert forall|i: int| 0 <= i < pieces.len() implies (#[trigger] pieces[i]).data.len() > 0 by {
            assert(in_flash(pieces[i], flash_base, flash_end));
        }
        let s = lemma_can_be_arranged(pieces);
        lemma_merged_is(pieces, s);
        lemma_joined_pieces(s);
        let chunks = merged(pieces);
        assert forall|i: int| 0 <= i < chunks.len() implies in_flash(
            #[trigger] chunks[i],
            flash_base,
            flash_end,
        ) by {
            let c = chunks[i];
            assert(piece_holds(chunks, i, c.address, c.data[0]));
            assert(holds(chunks, c.address, c.data[0]));
            let k = choose|k: int| #[trigger] piece_holds(pieces, k, c.address, c.data[0]);
            assert(in_flash(pieces[k], flash_base, flash_end));
            let last = c.end() - 1;
            assert(piece_holds(chunks, i, last, c.data.last()));
            assert(holds(chunks, last, c.data.last()));
            let l = choose|l: int| #[trigger] piece_holds(pieces, l, last, c.data.last());
            assert(in_flash(pieces[l], flash_base, flash_end));
        }
    }
}

/// Records that place data at a common address are rejected, also where the bytes are equal.
pub proof fn law_overlap_is_rejected(
    lines: Seq<Seq<u8>>,
    flash_base: u32,
    flash_end: u32,
    i: int,
    j: int,
    a: int,
)
    requires
        after_lines(lines, lines.len() as int, flash_base, flash_end) matches Ok(state) && 0 <= i
            < state.pieces.len() && 0 <= j < state.pieces.len() && i != j && state.pieces[i].address
            <= a < state.pieces[i].end() && state.pieces[j].address <= a < state.pieces[j].end(),
    ensures
        image_of_lines(lines, flash_base, flash_end) is Err,
{
    let pieces = after_lines(lines, lines.len() as int, flash_base, flash_end)->Ok_0.pieces;
    if pieces[i].address <= pieces[j].address {
        assert(clash_of(pieces, i, j, pieces[j].address));
        assert(clash_at(pieces, pieces[j].address));
    } else {
        assert(clash_of(pieces, j, i, pieces[i].address));
        assert(clash_at(pieces, pieces[i].address));
    }
}

/// Whether a line is a valid start-address record.
pub open spec fn is_entry_point(line: Seq<u8>) -> bool {
    record_bytes(without_return(line)) matches Ok(bytes) && (bytes[3] == 3 || bytes[3] == 5)
        && bytes[0] == 4 && be16(bytes[1], bytes[2]) == 0
}

/// Whether a line is empty, perhaps but for a carriage return.
pub open spec fn is_blank(line: Seq<u8>) -> bool {
    without_return(line).len() == 0
}

/// How the state is reached with one more line that changes nothing.
proof fn lemma_with_neutral_line(
    lines: Seq<Seq<u8>>,
    k: int,
    line: Seq<u8>,
    n: int,
    flash_base: u32,
    flash_end: u32,
)
    requires
        0 <= k <= n <= lines.len(),
        after_lines(lines, k, flash_base, flash_end) matches Ok(state) ==> after_line(
            state,
            line,
            flash_base,
            flash_end,
        ) == Ok::<HexState, Seq<char>>(state),
    ensures
        ({
            let short = after_lines(lines, n, flash_base, flash_end);
            let long = after_lines(lines.insert(k, line), n + 1, flash_base, flash_end);
            (short is Ok <==> long is Ok) && (short is Ok ==> short == long)
        }),
    decreases n,
{
    let longer = lines.insert(k, line);
    if n == k {
        lemma_same_prefix(lines, longer, k, flash_base, flash_end);
        assert(longer[k] == line);
    } else {
        lemma_with_neutral_line(lines, k, line, n - 1, flash_base, flash_end);
        assert(longer[n] == lines[n - 1]);
    }
}

/// The state behind some lines depends on those lines alone.
proof fn lemma_same_prefix(
    x: Seq<Seq<u8>>,
    y: Seq<Seq<u8>>,
    n: int,
    flash_base: u32,
    flash_end: u32,
)
    requires
        0 <= n <= x.len(),
        n <= y.len(),
        forall|i: int| 0 <= i < n ==> #[trigger] x[i] == y[i],
    ensures
        after_lines(x, n, flash_base, flash_end) == after_lines(y, n, flash_base, flash_end),
    decreases n,
{
    if n > 0 {
        lemma_same_prefix(x, y, n - 1, flash_base, flash_end);
        assert(x[n - 1] == y[n - 1]);
    }
}

/// A start-address record anywhere before the end-of-file record, or a blank line anywhere, does
/// not change whether an image is accepted, nor its data.
pub proof fn law_entry_points_and_blank_lines_change_nothing(
    lines: Seq<Seq<u8>>,
    k: int,
    line: Seq<u8>,
    flash_base: u32,
    flash_end: u32,
)
    requires
        0 <= k <= lines.len(),
        is_blank(line) || (is_entry_point(line) && (after_lines(
            lines,
            k,
            flash_base,
            flash_end,
        ) matches Ok(state) ==> !state.eof)),
    ensures
        ({
            let short = image_of_lines(lines, flash_base, flash_end);
            let long = image_of_lines(lines.insert(k, line), flash_base, flash_end);
            (short is Ok <==> long is Ok) && (short is Ok ==> short == long)
        }),
{
    lemma_with_neutral_line(lines, k, line, lines.len() as int, flash_base, flash_end);
}

/// A carriage return before a line feed does not matter.
pub proof fn law_carriage_return_does_not_matter(
    state: HexState,
    line: Seq<u8>,
    flash_base: u32,
    flash_end: u32,
)
    requires
        line.len() == 0 || line.last() != 13,
    ensures
        after_line(state, line.push(13), flash_base, flash_end) == after_line(
            state,
            line,
            flash_base,
            flash_end,
        ),
{
    assert(line.push(13).drop_last() =~= line);
}

/// A byte with an ASCII letter in lower case.
pub open spec fn lower_byte(b: u8) -> u8 {
    if 65 <= b <= 90 {
        (b + 32) as u8
    } else {
        b
    }
}

/// Bytes with their ASCII letters in lower case.
pub open spec fn lowered(bytes: Seq<u8>) -> Seq<u8> {
    bytes.map_values(|b: u8| lower_byte(b))
}

/// The case of letters does not matter to a record.
pub proof fn law_case_does_not_matter(line: Seq<u8>)
    ensures
        record_bytes(lowered(line)) == record_bytes(line),
{
    let lower = lowered(line);
    if line.len() > 0 {
        let x = line.skip(1);
        let y = lower.skip(1);
        assert(y =~= lowered(x));
        assert forall|i: int| 0 <= i < x.len() implies #[trigger] hex_digit(y[i]) == hex_digit(
            x[i],
        ) by {
            assert(y[i] == lower_byte(x[i]));
        }
        assert(all_hex(y) <==> all_hex(x)) by {
            if all_hex(x) {
                assert forall|i: int| 0 <= i < y.len() implies hex_digit(
                    #[trigger] y[i],
                ) is Some by {
                    assert(hex_digit(y[i]) == hex_digit(x[i]));
                }
            }
            if all_hex(y) {
                assert forall|i: int| 0 <= i < x.len() implies hex_digit(
                    #[trigger] x[i],
                ) is Some by {
                    assert(hex_digit(y[i]) == hex_digit(x[i]));
                }
            }
        }
        assert forall|i: int| 0 <= i < x.len() / 2 implies octet(y, i) == octet(x, i) by {
            assert(hex_digit(y[2 * i]) == hex_digit(x[2 * i]));
            assert(hex_digit(y[2 * i + 1]) == hex_digit(x[2 * i + 1]));
        }
        assert(octets(y) =~= octets(x));
        assert(lower[0] == lower_byte(line[0]));
    }
}

/// The lines of a file that are not blank, without carriage returns at their ends and in lower
/// case.
pub open spec fn records_of(data: Seq<u8>) -> Seq<Seq<u8>>
    decreases data.len(),
    via records_of_decreases
{
    let n = line_len(data);
    let record = lowered(without_return(data.take(n as int)));
    let head = if record.len() == 0 {
        Seq::empty()
    } else {
        seq![record]
    };
    if n >= data.len() {
        head
    } else {
        head + records_of(data.skip(n as int + 1))
    }
}

#[via_fn]
proof fn records_of_decreases(data: Seq<u8>) {
    lemma_line_len(data);
}

/// The state behind some records, if none of them is bad.
pub open spec fn after_records(
    state: HexState,
    records: Seq<Seq<u8>>,
    flash_base: u32,
    flash_end: u32,
) -> Option<HexState>
    decreases records.len(),
{
    if records.len() == 0 {
        Some(state)
    } else {
        match after_text(state, records[0], flash_base, flash_end) {
            Err(_) => None,
            Ok(next) => after_records(next, records.skip(1), flash_base, flash_end),
        }
    }
}

/// Whether two readings of an image come to the same: the same data, or no data for either.
pub open spec fn same_image(
    a: Result<Seq<Piece>, Seq<char>>,
    b: Result<Seq<Piece>, Seq<char>>,
) -> bool {
    (a is Ok <==> b is Ok) && (a is Ok ==> a == b)
}

/// The lines from one on are read as the records in them.
proof fn lemma_lines_are_records(
    lines: Seq<Seq<u8>>,
    k: int,
    state: HexState,
    data: Seq<u8>,
    flash_base: u32,
    flash_end: u32,
)
    requires
        0 <= k <= lines.len(),
        lines.skip(k) == lines_of(data),
        after_lines(lines, k, flash_base, flash_end) == Ok::<HexState, Seq<char>>(state),
    ensures
        match after_records(state, records_of(data), flash_base, flash_end) {
            Some(end) => after_lines(lines, lines.len() as int, flash_base, flash_end) == Ok::<
                HexState,
                Seq<char>,
            >(end),
            None => after_lines(lines, lines.len() as int, flash_base, flash_end) is Err,
        },
    decreases data.len(),
{
    let n = line_len(data);
    lemma_line_len(data);
    let line = data.take(n as int);
    let text = without_return(line);
    let record = lowered(text);
    let rest = data.skip(n as int + 1);
    let records = records_of(data);
    lemma_lines_nonempty(data);
    assert(lines.skip(k).len() > 0);
    assert(lines_of(data)[0] == line) by {
        if n >= data.len() {
            assert(data =~= line);
        }
    }
    assert(lines.skip(k)[0] == lines[k]);
    assert(lines[k] == line);
    assert(record.len() == text.len());
    law_case_does_not_matter(text);
    let next = after_line(state, line, flash_base, flash_end);
    assert(after_lines(lines, k + 1, flash_base, flash_end) is Err <==> next is Err);
    if record.len() > 0 {
        assert(records[0] == record);
        assert(next == after_text(state, record, flash_base, flash_end));
    }
    if next is Err {
        lemma_error_stays(lines, k + 1, lines.len() as int, flash_base, flash_end);
    } else {
        let next = next->Ok_0;
        assert(after_lines(lines, k + 1, flash_base, flash_end) == Ok::<HexState, Seq<char>>(next));
        if n >= data.len() {
            let none = Seq::<Seq<u8>>::empty();
            assert(lines.skip(k).len() == 1);
            assert(after_records(next, none, flash_base, flash_end) == Some(next));
            if record.len() > 0 {
                assert(records.skip(1) =~= none);
            }
        } else {
            assert(lines.skip(k + 1) =~= lines.skip(k).skip(1));
            assert(lines.skip(k + 1) =~= lines_of(rest));
            lemma_lines_are_records(lines, k + 1, next, rest, flash_base, flash_end);
            if record.len() > 0 {
                assert(records.skip(1) =~= records_of(rest));
            } else {
                assert(records =~= records_of(rest));
            }
        }
    }
}

/// An image is made of its records alone: two files with the same records, in the same order, hold
/// the same data, or are both rejected. Blank lines, the case of letters, carriage returns at line
/// ends and a line break at the end do not matter.
pub proof fn law_image_is_made_of_its_records(
    x: Seq<u8>,
    y: Seq<u8>,
    flash_base: u32,
    flash_end: u32,
)
    requires
        records_of(x) == records_of(y),
    ensures
        same_image(hex_image(x, flash_base, flash_end), hex_image(y, flash_base, flash_end)),
{
    let start = hex_start();
    assert(lines_of(x).skip(0) =~= lines_of(x));
    assert(lines_of(y).skip(0) =~= lines_of(y));
    lemma_lines_are_records(lines_of(x), 0, start, x, flash_base, flash_end);
    lemma_lines_are_records(lines_of(y), 0, start, y, flash_base, flash_end);
}

/// Bytes with each line feed written as two pairs of a carriage return and a line feed.
pub open spec fn with_doubled_breaks(bytes: Seq<u8>) -> Seq<u8>
    decreases bytes.len(),
{
    if bytes.len() == 0 {
        Seq::empty()
    } else {
        (if bytes[0] == 10 {
            seq![13u8, 10, 13, 10]
        } else {
            seq![bytes[0]]
        }) + with_doubled_breaks(bytes.skip(1))
    }
}

/// Whether bytes are line feeds and carriage returns alone.
pub open spec fn are_breaks(bytes: Seq<u8>) -> bool {
    forall|i: int| 0 <= i < bytes.len() ==> (#[trigger] bytes[i]) == 10 || bytes[i] == 13
}

/// Doubling the breaks goes line by line.
proof fn lemma_doubled_line(bytes: Seq<u8>)
    ensures
        ({
            let n = line_len(bytes) as int;
            &&& n <= bytes.len()
            &&& forall|i: int| 0 <= i < n ==> #[trigger] bytes[i] != 10
            &&& n < bytes.len() ==> bytes[n] == 10
            &&& with_doubled_breaks(bytes) == if n == bytes.len() {
                bytes
            } else {
                bytes.take(n) + seq![13u8, 10, 13, 10] + with_doubled_breaks(bytes.skip(n + 1))
            }
        }),
    decreases bytes.len(),
{
    let n = line_len(bytes) as int;
    lemma_line_len(bytes);
    if bytes.len() > 0 {
        let rest = bytes.skip(1);
        if bytes[0] == 10 {
            assert(bytes.take(0) =~= Seq::<u8>::empty());
            assert(with_doubled_breaks(bytes) =~= bytes.take(0) + seq![13u8, 10, 13, 10]
                + with_doubled_breaks(bytes.skip(1)));
        } else {
            lemma_doubled_line(rest);
            assert forall|i: int| 0 <= i < n implies #[trigger] bytes[i] != 10 by {
                if i > 0 {
                    assert(rest[i - 1] == bytes[i]);
                }
            }
            if n < bytes.len() {
                assert(rest[n - 1] == bytes[n]);
                assert(rest.skip(n) =~= bytes.skip(n + 1));
                assert(bytes.take(n) =~= seq![bytes[0]] + rest.take(n - 1));
                assert(with_doubled_breaks(bytes) =~= bytes.take(n) + seq![13u8, 10, 13, 10]
                    + with_doubled_breaks(bytes.skip(n + 1)));
            } else {
                assert(with_doubled_breaks(bytes) =~= bytes);
            }
        }
    }
}

/// The records of a line that is ended.
proof fn lemma_records_of_ended_line(line: Seq<u8>, rest: Seq<u8>)
    requires
        forall|i: int| 0 <= i < line.len() ==> #[trigger] line[i] != 10,
    ensures
        records_of(line + seq![10u8] + rest) == records_of(line) + records_of(rest),
{
    let all = line + seq![10u8] + rest;
    let n = line.len();
    assert forall|i: int| 0 <= i < n implies #[trigger] all[i] != 10 by {
        assert(all[i] == line[i]);
    }
    lemma_line_len_is(all, n);
    lemma_line_len_is(line, n);
    assert(all.take(n as int) =~= line);
    assert(line.take(n as int) =~= line);
    assert(all.skip(n as int + 1) =~= rest);
}

/// A carriage return at the end of a line that has none changes no record, and alone it is none.
proof fn lemma_records_of_returned_line(line: Seq<u8>)
    requires
        forall|i: int| 0 <= i < line.len() ==> #[trigger] line[i] != 10 && line[i] != 13,
    ensures
        records_of(line.push(13)) == records_of(line),
        records_of(seq![13u8]) == Seq::<Seq<u8>>::empty(),
        records_of(Seq::<u8>::empty()) == Seq::<Seq<u8>>::empty(),
{
    let n = line.len();
    let returned = line.push(13);
    lemma_line_len_is(line, n);
    lemma_line_len_is(returned, n + 1);
    assert(line.take(n as int) =~= line);
    assert(returned.take(n as int + 1) =~= returned);
    assert(returned.drop_last() =~= line);
    let alone = seq![13u8];
    lemma_line_len_is(alone, 1);
    assert(alone.take(1) =~= alone);
    assert(without_return(alone).len() == 0);
    let none = Seq::<u8>::empty();
    lemma_line_len_is(none, 0);
    assert(none.take(0) =~= none);
}

/// Line feeds alone are no records.
proof fn lemma_feeds_are_no_records(bytes: Seq<u8>)
    requires
        forall|i: int| 0 <= i < bytes.len() ==> #[trigger] bytes[i] == 10,
    ensures
        records_of(bytes) == Seq::<Seq<u8>>::empty(),
    decreases bytes.len(),
{
    let none = Seq::<u8>::empty();
    lemma_records_of_returned_line(none);
    if bytes.len() == 0 {
        assert(bytes =~= none);
    } else {
        let rest = bytes.skip(1);
        assert forall|i: int| 0 <= i < rest.len() implies #[trigger] rest[i] == 10 by {
            assert(rest[i] == bytes[i + 1]);
        }
        lemma_feeds_are_no_records(rest);
        lemma_records_of_ended_line(none, rest);
        assert(bytes =~= none + seq![10u8] + rest);
    }
}

/// What is left of a file without carriage returns when the breaks are doubled is breaks only where
/// the file was line feeds.
proof fn lemma_doubled_feeds(bytes: Seq<u8>)
    requires
        are_breaks(with_doubled_breaks(bytes)),
        forall|i: int| 0 <= i < bytes.len() ==> #[trigger] bytes[i] != 13,
    ensures
        forall|i: int| 0 <= i < bytes.len() ==> #[trigger] bytes[i] == 10,
    decreases bytes.len(),
{
    if bytes.len() > 0 {
        let rest = bytes.skip(1);
        let doubled = with_doubled_breaks(bytes);
        let more = with_doubled_breaks(rest);
        let n = doubled.len() - more.len();
        assert forall|i: int| 0 <= i < more.len() implies (#[trigger] more[i]) == 10 || more[i]
            == 13 by {
            assert(doubled[n + i] == more[i]);
        }
        assert forall|i: int| 0 <= i < rest.len() implies #[trigger] rest[i] != 13 by {
            assert(rest[i] == bytes[i + 1]);
        }
        lemma_doubled_feeds(rest);
        assert(doubled[0] == 10 || doubled[0] == 13);
        assert forall|i: int| 0 <= i < bytes.len() implies #[trigger] bytes[i] == 10 by {
            if i > 0 {
                assert(rest[i - 1] == bytes[i]);
            }
        }
    }
}

/// Doubled breaks, with some of the last ones left out, change no record.
proof fn lemma_doubled_breaks_keep_records(bytes: Seq<u8>, other: Seq<u8>, breaks: Seq<u8>)
    requires
        forall|i: int| 0 <= i < bytes.len() ==> #[trigger] bytes[i] != 13,
        other + breaks == with_doubled_breaks(bytes),
        are_breaks(breaks),
    ensures
        records_of(other) == records_of(bytes),
    decreases bytes.len(),
{
    lemma_doubled_line(bytes);
    let n = line_len(bytes) as int;
    let doubled = with_doubled_breaks(bytes);
    let line = bytes.take(n);
    let m = other.len() as int;
    // No byte of the first line is left out.
    if m < n {
        assert(doubled[n - 1] == bytes[n - 1]);
        assert(doubled[n - 1] == breaks[n - 1 - m]);
    }
    if n == bytes.len() {
        if m < doubled.len() {
            assert(doubled[m] == breaks[0]);
            assert(doubled[m] == bytes[m]);
        }
        assert(other =~= bytes);
    } else {
        let rest = bytes.skip(n + 1);
        let pairs = seq![13u8, 10, 13, 10];
        let more = with_doubled_breaks(rest);
        assert forall|i: int| 0 <= i < rest.len() implies #[trigger] rest[i] != 13 by {
            assert(rest[i] == bytes[n + 1 + i]);
        }
        assert forall|i: int| 0 <= i < line.len() implies #[trigger] line[i] != 10 && line[i]
            != 13 by {
            assert(line[i] == bytes[i]);
        }
        assert(bytes =~= line + seq![10u8] + rest);
        lemma_records_of_ended_line(line, rest);
        lemma_records_of_returned_line(line);
        let none = Seq::<u8>::empty();
        let alone = seq![13u8];
        let returned = line.push(13);
        if m >= n + 4 {
            let tail = other.skip(n + 4);
            assert(tail + breaks =~= more) by {
                assert(more =~= doubled.skip(n + 4));
            }
            lemma_doubled_breaks_keep_records(rest, tail, breaks);
            let whole = returned + seq![10u8] + (alone + seq![10u8] + tail);
            assert(whole.len() == m);
            assert forall|i: int| 0 <= i < m implies #[trigger] other[i] == whole[i] by {
                assert(other[i] == doubled[i]);
                if i < n {
                    assert(doubled[i] == line[i]);
                } else if i < n + 4 {
                    assert(doubled[i] == pairs[i - n]);
                } else {
                    assert(tail[i - n - 4] == other[i]);
                }
            }
            assert(other =~= whole);
            lemma_records_of_ended_line(alone, tail);
            lemma_records_of_ended_line(returned, alone + seq![10u8] + tail);
            assert(Seq::<Seq<u8>>::empty() + records_of(tail) =~= records_of(tail));
        } else {
            assert forall|i: int| 0 <= i < more.len() implies (#[trigger] more[i]) == 10 || more[i]
                == 13 by {
                assert(doubled[n + 4 + i] == more[i]);
                assert(doubled[n + 4 + i] == breaks[n + 4 + i - m]);
            }
            lemma_doubled_feeds(rest);
            lemma_feeds_are_no_records(rest);
            assert(records_of(line) + Seq::<Seq<u8>>::empty() =~= records_of(line));
            assert forall|i: int| 0 <= i < m implies #[trigger] other[i] == doubled[i] by {}
            if m == n {
                assert(other =~= line);
            } else if m == n + 1 {
                assert(other =~= returned);
            } else if m == n + 2 {
                assert(other =~= returned + seq![10u8] + none);
                lemma_records_of_ended_line(returned, none);
            } else {
                assert(other =~= returned + seq![10u8] + alone);
                lemma_records_of_ended_line(returned, alone);
            }
        }
    }
}

/// The case of letters changes no record.
proof fn lemma_lowered_keeps_records(bytes: Seq<u8>)
    ensures
        records_of(lowered(bytes)) == records_of(bytes),
    decreases bytes.len(),
{
    let lower = lowered(bytes);
    let n = line_len(bytes);
    lemma_doubled_line(bytes);
    assert forall|i: int| 0 <= i < n implies #[trigger] lower[i] != 10 by {
        assert(bytes[i] != 10);
        assert(lower[i] == lower_byte(bytes[i]));
    }
    if n < bytes.len() {
        assert(lower[n as int] == lower_byte(bytes[n as int]));
    }
    lemma_line_len_is(lower, n);
    let line = bytes.take(n as int);
    assert(lower.take(n as int) =~= lowered(line));
    if n > 0 {
        assert(lowered(line).last() == lower_byte(line.last()));
    }
    assert(without_return(lowered(line)) =~= lowered(without_return(line)));
    assert(lowered(lowered(without_return(line))) =~= lowered(without_return(line)));
    if n < bytes.len() {
        assert(lower.skip(n as int + 1) =~= lowered(bytes.skip(n as int + 1)));
        lemma_lowered_keeps_records(bytes.skip(n as int + 1));
    }
}

/// The letter case, the line ends and the end of a whole file do not matter. A file without carriage
/// returns, and the same file in lower case, with each line feed written as two pairs of a carriage
/// return and a line feed and with any of the last line breaks left out, hold the same data, or are
/// both rejected.
pub proof fn law_case_and_line_breaks_do_not_matter(
    file: Seq<u8>,
    other: Seq<u8>,
    breaks: Seq<u8>,
    flash_base: u32,
    flash_end: u32,
)
    requires
        !file.contains(13),
        other + breaks == with_doubled_breaks(lowered(file)),
        are_breaks(breaks),
    ensures
        same_image(
            hex_image(other, flash_base, flash_end),
            hex_image(file, flash_base, flash_end),
        ),
{
    let lower = lowered(file);
    assert forall|i: int| 0 <= i < lower.len() implies #[trigger] lower[i] != 13 by {
        assert(lower[i] == lower_byte(file[i]));
        assert(file.contains(file[i]));
    }
    lemma_doubled_breaks_keep_records(lower, other, breaks);
    lemma_lowered_keeps_records(file);
    law_image_is_made_of_its_records(other, file, flash_base, flash_end);
}

} // verus!
