//! What holds of the files that the user means, and of the plan for them.
use vstd::prelude::*;

use crate::chip;
use crate::commands;
use crate::commands::{Cli, Commands};
use crate::config;
use crate::config::ImageEntry;
use crate::elf;
use crate::flash;
use crate::flash::{Plan, Work};
use crate::ihex;
use crate::image;
use crate::image::{ImageFormat, Part};
use crate::outcomes;
use crate::promises;
use crate::promises::Reach;
use crate::session;
use crate::target::{ChipInfo, FLASH_BASE};
use crate::text;
use crate::walk;
use crate::walk::{Reply, Request, Trail};
use crate::wording;
use core::ops::Range;

verus! {

/// Whether an image is the one with a name: the last one where several have it.
pub open spec fn is_named(images: Seq<ImageEntry>, i: int, name: Seq<char>) -> bool {
    &&& 0 <= i < images.len()
    &&& images[i].name == name
    &&& forall|j: int| i < j < images.len() ==> (#[trigger] images[j]).name != name
}

/// The image that is found for a name is in the configuration and has this name, and there is one
/// wherever some image has the name.
pub proof fn law_named_image_has_the_name(images: Seq<ImageEntry>, name: Seq<char>)
    ensures
        match flash::named(images, name) {
            Some(image) => exists|i: int| #[trigger] is_named(images, i, name) && images[i] == image,
            None => forall|i: int| 0 <= i < images.len() ==> (#[trigger] images[i]).name != name,
        },
    decreases images.len(),
{
    if images.len() > 0 {
        let front = images.drop_last();
        if images.last().name == name {
            assert(is_named(images, images.len() - 1, name));
        } else {
            law_named_image_has_the_name(front, name);
            if let Some(image) = flash::named(front, name) {
                let i = choose|i: int| #[trigger] is_named(front, i, name) && front[i] == image;
                assert forall|j: int| i < j < images.len() implies (#[trigger] images[j]).name
                    != name by {
                    if j < front.len() {
                        assert(front[j].name != name);
                    }
                }
                assert(is_named(images, i, name) && images[i] == image);
            } else {
                assert forall|i: int| 0 <= i < images.len() implies (#[trigger] images[i]).name
                    != name by {
                    if i < front.len() {
                        assert(front[i].name != name);
                    }
                }
            }
        }
    }
}

/// Whether an extension, in either case, stands for a format.
pub open spec fn stands_for(extension: Option<Seq<char>>, format: ImageFormat) -> bool {
    extension matches Some(extension) && {
        let lower = text::lowered(extension);
        match format {
            ImageFormat::Bin => lower == "bin"@,
            ImageFormat::Elf => lower == "elf"@ || lower == "axf"@,
            ImageFormat::IntelHex => lower == "hex"@ || lower == "ihex"@ || lower == "mcs"@,
        }
    }
}

/// Whether an address is what the user gives for a file: a raw file needs an address, which counts
/// from the start of flash where it lies below that; any other file has its own addresses, and gets
/// none.
pub open spec fn is_given(format: ImageFormat, given: Option<u64>, addr: u32) -> bool {
    match given {
        Some(given) => format is Bin && addr == if given < 0x40_0000 {
            given + 0x40_0000
        } else {
            given as int
        },
        None => !(format is Bin) && addr == 0,
    }
}

/// The extensions of the formats are different texts.
proof fn lemma_extensions_differ()
    ensures
        "bin"@ != "elf"@,
        "bin"@ != "axf"@,
        "bin"@ != "hex"@,
        "bin"@ != "ihex"@,
        "bin"@ != "mcs"@,
        "elf"@ != "hex"@,
        "elf"@ != "ihex"@,
        "elf"@ != "mcs"@,
        "axf"@ != "hex"@,
        "axf"@ != "ihex"@,
        "axf"@ != "mcs"@,
{
    reveal_strlit("bin");
    reveal_strlit("elf");
    reveal_strlit("axf");
    reveal_strlit("hex");
    reveal_strlit("ihex");
    reveal_strlit("mcs");
    assert("bin"@[0] != "elf"@[0]);
    assert("bin"@[0] != "axf"@[0]);
    assert("bin"@[0] != "hex"@[0]);
    assert("bin"@[0] != "mcs"@[0]);
    assert("elf"@[0] != "hex"@[0]);
    assert("elf"@[0] != "mcs"@[0]);
    assert("axf"@[0] != "hex"@[0]);
    assert("axf"@[0] != "mcs"@[0]);
}

/// A file is taken with the format that its extension stands for and the address that the user
/// gives, and it is rejected where there is no such format or no such address.
pub proof fn law_file_is_taken_as_given(
    path: Seq<char>,
    extension: Option<Seq<char>>,
    addr: Option<u64>,
    context: Seq<char>,
)
    ensures
        match flash::unresolved(path, extension, addr, context) {
            Ok(part) => {
                &&& part.file == path
                &&& part.staged is None
                &&& stands_for(extension, part.format)
                &&& is_given(part.format, addr, part.addr)
            },
            Err(_) => forall|format: ImageFormat, address: u32|
                #![trigger is_given(format, addr, address)]
                !(stands_for(extension, format) && is_given(format, addr, address)),
        },
{
    lemma_extensions_differ();
}

/// Whether a path is resolved to that of a file between two points of a walk.
pub open spec fn did_resolve(t: Trail, u: Trail, path: Seq<char>, file: Seq<char>) -> bool {
    exists|found: String|
        #[trigger] walk::told(t, u, Request::Resolve(path), Reply::Path(found, true)) && found@
            == file
}

/// Whether a part is a file of the user: its path is resolved, its format is that of the extension,
/// and its address is the one that is given.
pub open spec fn is_file_of(
    t: Trail,
    u: Trail,
    part: Part,
    path: Seq<char>,
    extension: Option<Seq<char>>,
    addr: Option<u64>,
) -> bool {
    &&& part.staged is None
    &&& stands_for(extension, part.format)
    &&& is_given(part.format, addr, part.addr)
    &&& did_resolve(t, u, path, part.file)
    &&& walk::told(t, u, Request::IsFile(path), Reply::Flag(true))
}

/// Whether parts are the files of a named image, in order.
pub open spec fn are_files_of(t: Trail, u: Trail, parts: Seq<Part>, image: ImageEntry) -> bool {
    &&& parts.len() == image.parts.len()
    &&& forall|i: int|
        0 <= i < parts.len() ==> is_file_of(
            t,
            u,
            #[trigger] parts[i],
            image.parts[i].path,
            image.parts[i].extension,
            image.parts[i].addr,
        )
}

/// Whether parts are one file that is no named image.
pub open spec fn is_single_file(
    t: Trail,
    u: Trail,
    parts: Seq<Part>,
    target: Seq<char>,
    addr: Option<u32>,
) -> bool {
    &&& parts.len() == 1
    &&& exists|extension: Option<String>|
        #[trigger] walk::told(t, u, Request::Examine(target), Reply::File(true, extension))
            && is_file_of(
            t,
            u,
            parts[0],
            target,
            text::maybe(extension),
            match addr {
                Some(addr) => Some(addr as u64),
                None => None,
            },
        )
}

/// Each file of a named image is taken as given.
proof fn lemma_named_parts(parts: Seq<config::PartEntry>)
    ensures
        flash::named_parts(parts) matches Ok(found) ==> found.len() == parts.len() && forall|i: int|
            0 <= i < parts.len() ==> {
                &&& (#[trigger] found[i]).file == parts[i].path
                &&& found[i].staged is None
                &&& stands_for(parts[i].extension, found[i].format)
                &&& is_given(found[i].format, parts[i].addr, found[i].addr)
            },
    decreases parts.len(),
{
    if parts.len() > 0 {
        lemma_named_parts(parts.drop_last());
        law_file_is_taken_as_given(
            parts.last().path,
            parts.last().extension,
            parts.last().addr,
            "named image"@,
        );
    }
}

/// Each path is resolved.
proof fn lemma_all_resolved(t: Trail, parts: Seq<Part>, n: nat)
    requires
        t.at >= 0,
        n <= parts.len(),
    ensures
        walk::leads_to(t, flash::all_resolved(t, parts, n).0),
        flash::all_resolved(t, parts, n).1 matches Ok(found) ==> found.len() == n && forall|i: int|
            0 <= i < n ==> {
                &&& (#[trigger] found[i]).addr == parts[i].addr
                &&& found[i].format == parts[i].format
                &&& found[i].staged == parts[i].staged
                &&& did_resolve(
                    t,
                    flash::all_resolved(t, parts, n).0,
                    parts[i].file,
                    found[i].file,
                )
                &&& walk::told(
                    t,
                    flash::all_resolved(t, parts, n).0,
                    Request::IsFile(parts[i].file),
                    Reply::Flag(true),
                )
            },
    decreases n,
{
    promises::lemma_all_resolved(t, parts, n, Reach::Anything);
    if n > 0 {
        let m = (n - 1) as nat;
        lemma_all_resolved(t, parts, m);
        promises::lemma_all_resolved(t, parts, m, Reach::Anything);
        if let (v, Ok(found)) = flash::all_resolved(t, parts, n) {
            let (u, front) = flash::all_resolved(t, parts, m);
            let front = front->Ok_0;
            let file = parts[m as int].file;
            reveal(flash::resolved);
            let asked = Request::IsFile(file);
            walk::lemma_told(u, asked);
            let (x, _) = walk::ask(u, asked);
            walk::lemma_told_inside(t, u, x, v, asked, Reply::Flag(true));
            let asked = Request::Resolve(file);
            walk::lemma_told(x, asked);
            let reply = walk::ask(x, asked).1->Ok_0;
            walk::lemma_told_inside(t, x, v, v, asked, reply);
            let shown = reply->Path_0;
            assert(reply == Reply::Path(shown, true));
            assert(did_resolve(t, v, file, found[m as int].file));
            assert forall|i: int| 0 <= i < n implies {
                &&& (#[trigger] found[i]).addr == parts[i].addr
                &&& found[i].format == parts[i].format
                &&& found[i].staged == parts[i].staged
                &&& did_resolve(t, v, parts[i].file, found[i].file)
                &&& walk::told(t, v, Request::IsFile(parts[i].file), Reply::Flag(true))
            } by {
                if i < m {
                    assert(found[i] == front[i]);
                    lemma_resolved_inside(t, t, u, v, parts[i].file, front[i].file);
                    walk::lemma_told_inside(
                        t,
                        t,
                        u,
                        v,
                        Request::IsFile(parts[i].file),
                        Reply::Flag(true),
                    );
                }
            }
        }
    }
}

/// What is resolved in a part of a walk is resolved in the whole.
proof fn lemma_resolved_inside(
    t: Trail,
    a: Trail,
    b: Trail,
    u: Trail,
    path: Seq<char>,
    file: Seq<char>,
)
    requires
        walk::leads_to(t, a),
        did_resolve(a, b, path, file),
        walk::leads_to(b, u),
    ensures
        did_resolve(t, u, path, file),
{
    let found = choose|found: String|
        #[trigger] walk::told(a, b, Request::Resolve(path), Reply::Path(found, true)) && found@
            == file;
    walk::lemma_told_inside(t, a, b, u, Request::Resolve(path), Reply::Path(found, true));
}

/// Whether parts are the files that the user means: those of the image with the name that the user
/// gives or, where no image has this name, the one file with this path.
pub open spec fn are_meant(
    t: Trail,
    u: Trail,
    parts: Seq<Part>,
    target: Seq<char>,
    addr: Option<u32>,
    images: Seq<ImageEntry>,
) -> bool {
    ||| exists|i: int|
        #[trigger] is_named(images, i, target) && addr is None && are_files_of(
            t,
            u,
            parts,
            images[i],
        )
    ||| (forall|i: int| 0 <= i < images.len() ==> (#[trigger] images[i]).name != target)
        && is_single_file(t, u, parts, target, addr)
}

/// The files that are taken are those that the user means: those of the image with the name that the
/// user gives, each with the format and the address that the configuration gives for it; or, where no
/// image has this name, the one file with this path, with the address that the user gives.
pub proof fn law_files_are_those_of_the_user(
    t: Trail,
    target: Seq<char>,
    addr: Option<u32>,
    images: Seq<ImageEntry>,
)
    requires
        t.at >= 0,
    ensures
        flash::prepared(t, target, addr, images) matches (u, Ok(parts)) ==> are_meant(
            t,
            u,
            parts,
            target,
            addr,
            images,
        ),
{
    if let (u, Ok(parts)) = flash::prepared(t, target, addr, images) {
        reveal(flash::prepared);
        reveal(flash::chosen);
        let (s, files) = flash::chosen(t, target, addr, images);
        let files = files->Ok_0;
        law_named_image_has_the_name(images, target);
        lemma_all_resolved(s, files, files.len());
        if let Some(image) = flash::named(images, target) {
            let i = choose|i: int| #[trigger] is_named(images, i, target) && images[i] == image;
            lemma_named_parts(image.parts);
            assert forall|k: int| 0 <= k < parts.len() implies is_file_of(
                t,
                u,
                #[trigger] parts[k],
                image.parts[k].path,
                image.parts[k].extension,
                image.parts[k].addr,
            ) by {
                assert(files[k].file == image.parts[k].path);
            }
            assert(are_files_of(t, u, parts, images[i]));
        } else {
            let asked = Request::Examine(target);
            walk::lemma_told(t, asked);
            let reply = walk::ask(t, asked).1->Ok_0;
            walk::lemma_told_inside(t, t, s, u, asked, reply);
            let extension = reply->File_1;
            assert(reply == Reply::File(true, extension));
            law_file_is_taken_as_given(
                target,
                text::maybe(extension),
                flash::widened(addr),
                "image file"@,
            );
            assert(parts[0].addr == files[0].addr);
            lemma_resolved_inside(t, s, u, u, target, parts[0].file);
            walk::lemma_told_inside(t, s, u, u, Request::IsFile(target), Reply::Flag(true));
            assert(is_file_of(
                t,
                u,
                parts[0],
                target,
                text::maybe(extension),
                flash::widened(addr),
            ));
        }
    }
}

/// Whether a file was read between two points of a walk, and what it holds.
pub open spec fn did_read_file(t: Trail, u: Trail, file: Seq<char>, data: Seq<u8>) -> bool {
    exists|bytes: Vec<u8>|
        #[trigger] walk::told(t, u, Request::ReadFile(file), Reply::Bytes(bytes)) && bytes@ == data
}

/// Whether bytes were put in a file of their own between two points of a walk.
pub open spec fn did_stage(t: Trail, u: Trail, data: Seq<u8>, path: Seq<char>) -> bool {
    exists|found: String|
        #[trigger] walk::told(t, u, Request::Stage(data), Reply::Path(found, true)) && found@
            == path
}

/// Whether the image in an Intel HEX file has a chunk.
pub open spec fn has_chunk(data: Seq<u8>, flash_end: u32, chunk: ihex::Piece) -> bool {
    ihex::hex_image(data, FLASH_BASE, flash_end) matches Ok(chunks) && chunks.contains(chunk)
}

/// Whether a part of a plan comes from a given one: a raw file and an ELF file are written as they
/// are, at the address that is given; of an Intel HEX file, a chunk is written from a file with the
/// bytes of the chunk, at its address.
pub open spec fn comes_from(t: Trail, u: Trail, part: Part, given: Part, flash_end: u32) -> bool {
    &&& part.file == given.file
    &&& match given.format {
        ImageFormat::IntelHex => part.format is Bin && exists|data: Seq<u8>, chunk: ihex::Piece|
            did_read_file(t, u, given.file, data) && part.addr == chunk.address
                && #[trigger] has_chunk(data, flash_end, chunk) && part.staged is Some && did_stage(
                t,
                u,
                chunk.data,
                part.staged->0,
            ),
        _ => part.format == given.format && part.addr == given.addr && part.staged is None,
    }
}

/// Whether a file fills a range: a raw file fills its length from its address on, an ELF file fills
/// what its program headers load, and an Intel HEX file fills its chunks.
pub open spec fn fills(
    t: Trail,
    u: Trail,
    given: Part,
    range: Range<u32>,
    flash_end: u32,
) -> bool {
    match given.format {
        ImageFormat::Bin => range.start == given.addr && walk::told(
            t,
            u,
            Request::FileSize(given.file),
            Reply::Number((range.end - range.start) as u64),
        ) && range.start < range.end,
        ImageFormat::Elf => exists|data: Seq<u8>|
            #[trigger] did_read_file(t, u, given.file, data) && elf::loads(data, range),
        ImageFormat::IntelHex => exists|data: Seq<u8>, chunk: ihex::Piece|
            did_read_file(t, u, given.file, data) && #[trigger] has_chunk(data, flash_end, chunk)
                && range.start == chunk.address && range.end == chunk.address + chunk.data.len(),
    }
}

/// Whether all of a file is among some ranges and parts.
pub open spec fn is_whole(
    t: Trail,
    u: Trail,
    given: Part,
    ranges: Seq<Range<u32>>,
    parts: Seq<Part>,
    flash_end: u32,
) -> bool {
    match given.format {
        ImageFormat::Bin => {
            &&& exists|range: Range<u32>|
                #[trigger] ranges.contains(range) && fills(t, u, given, range, flash_end)
            &&& exists|part: Part|
                #[trigger] parts.contains(part) && comes_from(t, u, part, given, flash_end)
        },
        ImageFormat::Elf => {
            &&& exists|data: Seq<u8>| #[trigger]
                did_read_file(t, u, given.file, data) && forall|range: Range<u32>| #[trigger]
                    elf::loads(data, range) ==> ranges.contains(range)
            &&& exists|part: Part|
                #[trigger] parts.contains(part) && comes_from(t, u, part, given, flash_end)
        },
        ImageFormat::IntelHex => exists|data: Seq<u8>| #[trigger]
            did_read_file(t, u, given.file, data) && forall|chunk: ihex::Piece| #[trigger]
                has_chunk(data, flash_end, chunk) ==> has_chunk_planned(
                    t,
                    u,
                    given,
                    chunk,
                    ranges,
                    parts,
                ),
    }
}

/// Whether a chunk of an Intel HEX file is among some ranges and parts.
pub open spec fn has_chunk_planned(
    t: Trail,
    u: Trail,
    given: Part,
    chunk: ihex::Piece,
    ranges: Seq<Range<u32>>,
    parts: Seq<Part>,
) -> bool {
    &&& exists|range: Range<u32>|
        #[trigger] ranges.contains(range) && range.start == chunk.address && range.end
            == chunk.address + chunk.data.len()
    &&& exists|part: Part|
        #[trigger] parts.contains(part) && part.file == given.file && part.addr == chunk.address
            && part.format is Bin && part.staged is Some && did_stage(
            t,
            u,
            chunk.data,
            part.staged->0,
        )
}

/// What is read in a part of a walk is read in the whole.
proof fn lemma_file_inside(t: Trail, a: Trail, b: Trail, u: Trail, file: Seq<char>, data: Seq<u8>)
    requires
        walk::leads_to(t, a),
        did_read_file(a, b, file, data),
        walk::leads_to(b, u),
    ensures
        did_read_file(t, u, file, data),
{
    let bytes = choose|bytes: Vec<u8>|
        #[trigger] walk::told(a, b, Request::ReadFile(file), Reply::Bytes(bytes)) && bytes@ == data;
    walk::lemma_told_inside(t, a, b, u, Request::ReadFile(file), Reply::Bytes(bytes));
}

/// What is staged in a part of a walk is staged in the whole.
proof fn lemma_stage_inside(t: Trail, a: Trail, b: Trail, u: Trail, data: Seq<u8>, path: Seq<char>)
    requires
        walk::leads_to(t, a),
        did_stage(a, b, data, path),
        walk::leads_to(b, u),
    ensures
        did_stage(t, u, data, path),
{
    let found = choose|found: String|
        #[trigger] walk::told(a, b, Request::Stage(data), Reply::Path(found, true)) && found@
            == path;
    walk::lemma_told_inside(t, a, b, u, Request::Stage(data), Reply::Path(found, true));
}

/// A part that comes from a given one in a part of a walk comes from it in the whole.
proof fn lemma_comes_from_inside(
    t: Trail,
    a: Trail,
    b: Trail,
    u: Trail,
    part: Part,
    given: Part,
    flash_end: u32,
)
    requires
        walk::leads_to(t, a),
        comes_from(a, b, part, given, flash_end),
        walk::leads_to(b, u),
    ensures
        comes_from(t, u, part, given, flash_end),
{
    if given.format is IntelHex {
        let (data, chunk) = choose|data: Seq<u8>, chunk: ihex::Piece|
            did_read_file(a, b, given.file, data) && part.addr == chunk.address
                && #[trigger] has_chunk(data, flash_end, chunk) && part.staged is Some && did_stage(
                a,
                b,
                chunk.data,
                part.staged->0,
            );
        lemma_file_inside(t, a, b, u, given.file, data);
        lemma_stage_inside(t, a, b, u, chunk.data, part.staged->0);
        assert(has_chunk(data, flash_end, chunk));
    }
}

/// What a file fills in a part of a walk it fills in the whole.
proof fn lemma_fills_inside(
    t: Trail,
    a: Trail,
    b: Trail,
    u: Trail,
    given: Part,
    range: Range<u32>,
    flash_end: u32,
)
    requires
        walk::leads_to(t, a),
        fills(a, b, given, range, flash_end),
        walk::leads_to(b, u),
    ensures
        fills(t, u, given, range, flash_end),
{
    match given.format {
        ImageFormat::Bin => {
            walk::lemma_told_inside(
                t,
                a,
                b,
                u,
                Request::FileSize(given.file),
                Reply::Number((range.end - range.start) as u64),
            );
        },
        ImageFormat::Elf => {
            let data = choose|data: Seq<u8>|
                #[trigger] did_read_file(a, b, given.file, data) && elf::loads(data, range);
            lemma_file_inside(t, a, b, u, given.file, data);
        },
        ImageFormat::IntelHex => {
            let (data, chunk) = choose|data: Seq<u8>, chunk: ihex::Piece|
                did_read_file(a, b, given.file, data) && #[trigger] has_chunk(
                    data,
                    flash_end,
                    chunk,
                ) && range.start == chunk.address && range.end == chunk.address
                    + chunk.data.len();
            lemma_file_inside(t, a, b, u, given.file, data);
            assert(has_chunk(data, flash_end, chunk));
        },
    }
}

/// A file that is whole in a part of a walk is whole in the whole, also among more.
proof fn lemma_whole_inside(
    t: Trail,
    a: Trail,
    b: Trail,
    u: Trail,
    given: Part,
    work: Work,
    more: Work,
    flash_end: u32,
)
    requires
        walk::leads_to(t, a),
        is_whole(a, b, given, work.ranges, work.parts, flash_end),
        walk::leads_to(b, u),
        forall|range: Range<u32>| #[trigger]
            work.ranges.contains(range) ==> more.ranges.contains(range),
        forall|part: Part| #[trigger] work.parts.contains(part) ==> more.parts.contains(part),
    ensures
        is_whole(t, u, given, more.ranges, more.parts, flash_end),
{
    if !(given.format is IntelHex) {
        let part = choose|part: Part|
            #[trigger] work.parts.contains(part) && comes_from(a, b, part, given, flash_end);
        lemma_comes_from_inside(t, a, b, u, part, given, flash_end);
        assert(more.parts.contains(part));
    }
    match given.format {
        ImageFormat::Bin => {
            let range = choose|range: Range<u32>|
                #[trigger] work.ranges.contains(range) && fills(a, b, given, range, flash_end);
            lemma_fills_inside(t, a, b, u, given, range, flash_end);
            assert(more.ranges.contains(range));
        },
        ImageFormat::Elf => {
            let data = choose|data: Seq<u8>| #[trigger]
                did_read_file(a, b, given.file, data) && forall|range: Range<u32>| #[trigger]
                    elf::loads(data, range) ==> work.ranges.contains(range);
            lemma_file_inside(t, a, b, u, given.file, data);
        },
        ImageFormat::IntelHex => {
            let data = choose|data: Seq<u8>| #[trigger]
                did_read_file(a, b, given.file, data) && forall|chunk: ihex::Piece| #[trigger]
                    has_chunk(data, flash_end, chunk) ==> has_chunk_planned(
                        a,
                        b,
                        given,
                        chunk,
                        work.ranges,
                        work.parts,
                    );
            lemma_file_inside(t, a, b, u, given.file, data);
            assert forall|chunk: ihex::Piece| #[trigger]
                has_chunk(data, flash_end, chunk) implies has_chunk_planned(
                t,
                u,
                given,
                chunk,
                more.ranges,
                more.parts,
            ) by {
                assert(has_chunk_planned(a, b, given, chunk, work.ranges, work.parts));
                let range = choose|range: Range<u32>|
                    #[trigger] work.ranges.contains(range) && range.start == chunk.address
                        && range.end == chunk.address + chunk.data.len();
                assert(more.ranges.contains(range));
                let part = choose|part: Part|
                    #[trigger] work.parts.contains(part) && part.file == given.file && part.addr
                        == chunk.address && part.format is Bin && part.staged is Some && did_stage(
                        a,
                        b,
                        chunk.data,
                        part.staged->0,
                    );
                lemma_stage_inside(t, a, b, u, chunk.data, part.staged->0);
                assert(more.parts.contains(part));
            }
        },
    }
}

/// Whether ranges and parts are those of the given parts: each comes from one of them, and all of
/// each of them is there.
pub open spec fn are_of(
    t: Trail,
    u: Trail,
    given: Seq<Part>,
    work: Work,
    flash_end: u32,
) -> bool {
    &&& forall|range: Range<u32>| #[trigger]
        work.ranges.contains(range) ==> exists|i: int|
            0 <= i < given.len() && fills(t, u, #[trigger] given[i], range, flash_end)
    &&& forall|part: Part| #[trigger]
        work.parts.contains(part) ==> exists|i: int|
            0 <= i < given.len() && comes_from(t, u, part, #[trigger] given[i], flash_end)
    &&& forall|i: int|
        0 <= i < given.len() ==> is_whole(
            t,
            u,
            #[trigger] given[i],
            work.ranges,
            work.parts,
            flash_end,
        )
}

/// Reading a file tells what it holds.
proof fn lemma_contents(t: Trail, file: Seq<char>)
    requires
        t.at >= 0,
    ensures
        flash::contents(t, file) matches (u, Ok(data)) ==> did_read_file(t, u, file, data)
            && walk::leads_to(t, u) && data.len() <= usize::MAX,
{
    reveal(flash::contents);
    if let (u, Ok(data)) = flash::contents(t, file) {
        let asked = Request::ReadFile(file);
        walk::lemma_told(t, asked);
        let reply = walk::ask(t, asked).1->Ok_0;
        let bytes = reply->Bytes_0;
        assert(reply == Reply::Bytes(bytes));
        let n: usize = bytes.len();
        assert(bytes@.len() == n);
    }
}

/// Each chunk is staged, and nothing else is.
proof fn lemma_chunks(
    t: Trail,
    file: Seq<char>,
    chunks: Seq<ihex::Piece>,
    n: nat,
    flash_end: u32,
)
    requires
        t.at >= 0,
        n <= chunks.len(),
        forall|i: int|
            0 <= i < chunks.len() ==> ihex::in_flash(#[trigger] chunks[i], FLASH_BASE, flash_end),
    ensures
        flash::chunks_staged(t, file, chunks, n) matches (u, Ok(work)) ==> {
            &&& walk::leads_to(t, u)
            &&& work.ranges.len() == n
            &&& work.parts.len() == n
            &&& forall|i: int|
                0 <= i < n ==> {
                    &&& (#[trigger] work.ranges[i]).start == chunks[i].address
                    &&& work.ranges[i].end == chunks[i].address + chunks[i].data.len()
                }
            &&& forall|i: int|
                0 <= i < n ==> {
                    &&& (#[trigger] work.parts[i]).file == file
                    &&& work.parts[i].addr == chunks[i].address
                    &&& work.parts[i].format is Bin
                    &&& work.parts[i].staged is Some
                    &&& did_stage(t, u, chunks[i].data, work.parts[i].staged->0)
                }
        },
    decreases n,
{
    if n > 0 {
        let m = (n - 1) as nat;
        lemma_chunks(t, file, chunks, m, flash_end);
        promises::lemma_chunks_staged(t, file, chunks, m, Reach::Anything);
        if let (v, Ok(work)) = flash::chunks_staged(t, file, chunks, n) {
            let (u, front) = flash::chunks_staged(t, file, chunks, m);
            let front = front->Ok_0;
            let chunk = chunks[m as int];
            assert(ihex::in_flash(chunk, FLASH_BASE, flash_end));
            reveal(flash::staged);
            let asked = Request::Stage(chunk.data);
            walk::lemma_told(u, asked);
            let reply = walk::ask(u, asked).1->Ok_0;
            walk::lemma_told_inside(t, u, v, v, asked, reply);
            let found = reply->Path_0;
            assert(reply == Reply::Path(found, true));
            assert(did_stage(t, v, chunk.data, work.parts[m as int].staged->0));
            assert forall|i: int| 0 <= i < n implies {
                &&& (#[trigger] work.parts[i]).file == file
                &&& work.parts[i].addr == chunks[i].address
                &&& work.parts[i].format is Bin
                &&& work.parts[i].staged is Some
                &&& did_stage(t, v, chunks[i].data, work.parts[i].staged->0)
            } by {
                if i < m {
                    assert(work.parts[i] == front.parts[i]);
                    lemma_stage_inside(
                        t,
                        t,
                        u,
                        v,
                        chunks[i].data,
                        front.parts[i].staged->0,
                    );
                }
            }
            assert forall|i: int| 0 <= i < n implies {
                &&& (#[trigger] work.ranges[i]).start == chunks[i].address
                &&& work.ranges[i].end == chunks[i].address + chunks[i].data.len()
            } by {
                if i < m {
                    assert(work.ranges[i] == front.ranges[i]);
                }
            }
        }
    }
}

/// What one file asks for is of this file.
proof fn lemma_part_planned(t: Trail, given: Part, flash_end: u32)
    requires
        t.at >= 0,
    ensures
        flash::part_planned(t, given, flash_end) matches (u, Ok(work)) ==> are_of(
            t,
            u,
            seq![given],
            work,
            flash_end,
        ) && walk::leads_to(t, u),
{
    let one = seq![given];
    promises::lemma_part_planned(t, given, flash_end, Reach::Anything);
    if let (u, Ok(work)) = flash::part_planned(t, given, flash_end) {
        reveal(flash::part_planned);
        assert(one[0] == given);
        match given.format {
            ImageFormat::Bin => {
                reveal(flash::bin_planned);
                let asked = Request::FileSize(given.file);
                walk::lemma_told(t, asked);
                let range = work.ranges[0];
                assert(fills(t, u, given, range, flash_end));
                assert(work.ranges.contains(range));
                assert(comes_from(t, u, work.parts[0], given, flash_end));
                assert(work.parts.contains(work.parts[0]));
            },
            ImageFormat::Elf => {
                reveal(flash::elf_planned);
                lemma_contents(t, given.file);
                let data = flash::contents(t, given.file).1->Ok_0;
                elf::law_elf_ranges_are_what_is_loaded(data, flash_end);
                assert(comes_from(t, u, work.parts[0], given, flash_end));
                assert(work.parts.contains(work.parts[0]));
                assert forall|range: Range<u32>| #[trigger]
                    work.ranges.contains(range) implies exists|i: int|
                    0 <= i < one.len() && fills(t, u, #[trigger] one[i], range, flash_end) by {
                    assert(elf::loads(data, range));
                    assert(fills(t, u, one[0], range, flash_end));
                }
                assert(is_whole(t, u, given, work.ranges, work.parts, flash_end));
            },
            ImageFormat::IntelHex => {
                reveal(flash::hex_planned);
                lemma_contents(t, given.file);
                let (s, data) = flash::contents(t, given.file);
                let data = data->Ok_0;
                ihex::law_accepted_image(ihex::lines_of(data), FLASH_BASE, flash_end);
                let chunks = ihex::hex_image(data, FLASH_BASE, flash_end)->Ok_0;
                lemma_chunks(s, given.file, chunks, chunks.len(), flash_end);
                lemma_file_inside(t, t, s, u, given.file, data);
                assert forall|range: Range<u32>| #[trigger]
                    work.ranges.contains(range) implies exists|i: int|
                    0 <= i < one.len() && fills(t, u, #[trigger] one[i], range, flash_end) by {
                    let k = work.ranges.index_of(range);
                    assert(chunks.contains(chunks[k]));
                    assert(has_chunk(data, flash_end, chunks[k]));
                    assert(work.ranges[k] == range);
                    assert(fills(t, u, one[0], range, flash_end));
                }
                assert forall|part: Part| #[trigger]
                    work.parts.contains(part) implies exists|i: int|
                    0 <= i < one.len() && comes_from(t, u, part, #[trigger] one[i], flash_end) by {
                    let k = work.parts.index_of(part);
                    assert(chunks.contains(chunks[k]));
                    assert(has_chunk(data, flash_end, chunks[k]));
                    assert(work.parts[k] == part);
                    lemma_stage_inside(t, s, u, u, chunks[k].data, part.staged->0);
                    assert(comes_from(t, u, part, one[0], flash_end));
                }
                assert forall|chunk: ihex::Piece| #[trigger]
                    has_chunk(data, flash_end, chunk) implies has_chunk_planned(
                    t,
                    u,
                    given,
                    chunk,
                    work.ranges,
                    work.parts,
                ) by {
                    let k = chunks.index_of(chunk);
                    assert(work.ranges.contains(work.ranges[k]));
                    let part = work.parts[k];
                    lemma_stage_inside(t, s, u, u, chunk.data, part.staged->0);
                    assert(work.parts.contains(part));
                }
                assert(is_whole(t, u, given, work.ranges, work.parts, flash_end));
            },
        }
    }
}

/// What the first files ask for is of these files.
proof fn lemma_all_planned(t: Trail, given: Seq<Part>, n: nat, flash_end: u32)
    requires
        t.at >= 0,
        n <= given.len(),
    ensures
        flash::all_planned(t, given, n, flash_end) matches (u, Ok(work)) ==> are_of(
            t,
            u,
            given.take(n as int),
            work,
            flash_end,
        ) && walk::leads_to(t, u),
    decreases n,
{
    promises::lemma_all_planned(t, given, n, flash_end, Reach::Anything);
    if n > 0 {
        let m = (n - 1) as nat;
        lemma_all_planned(t, given, m, flash_end);
        promises::lemma_all_planned(t, given, m, flash_end, Reach::Anything);
        if let (v, Ok(work)) = flash::all_planned(t, given, n, flash_end) {
            let (u, front) = flash::all_planned(t, given, m, flash_end);
            let front = front->Ok_0;
            let last = given[m as int];
            lemma_part_planned(u, last, flash_end);
            let more = flash::part_planned(u, last, flash_end).1->Ok_0;
            let before = given.take(m as int);
            let all = given.take(n as int);
            assert(seq![last][0] == last);
            assert(all[m as int] == last);
            assert forall|range: Range<u32>| #[trigger]
                front.ranges.contains(range) implies work.ranges.contains(range) by {
                assert(work.ranges[front.ranges.index_of(range)] == range);
            }
            assert forall|part: Part| #[trigger]
                front.parts.contains(part) implies work.parts.contains(part) by {
                assert(work.parts[front.parts.index_of(part)] == part);
            }
            assert forall|range: Range<u32>| #[trigger]
                more.ranges.contains(range) implies work.ranges.contains(range) by {
                assert(work.ranges[front.ranges.len() + more.ranges.index_of(range)] == range);
            }
            assert forall|part: Part| #[trigger]
                more.parts.contains(part) implies work.parts.contains(part) by {
                assert(work.parts[front.parts.len() + more.parts.index_of(part)] == part);
            }
            assert forall|range: Range<u32>| #[trigger]
                work.ranges.contains(range) implies exists|i: int|
                0 <= i < all.len() && fills(t, v, #[trigger] all[i], range, flash_end) by {
                let k = work.ranges.index_of(range);
                if k < front.ranges.len() {
                    assert(front.ranges[k] == range);
                    assert(front.ranges.contains(range));
                    let i = choose|i: int|
                        0 <= i < before.len() && fills(
                            t,
                            u,
                            #[trigger] before[i],
                            range,
                            flash_end,
                        );
                    assert(all[i] == before[i]);
                    lemma_fills_inside(t, t, u, v, all[i], range, flash_end);
                } else {
                    assert(more.ranges[k - front.ranges.len()] == range);
                    assert(more.ranges.contains(range));
                    assert(fills(u, v, last, range, flash_end));
                    lemma_fills_inside(t, u, v, v, last, range, flash_end);
                    assert(fills(t, v, all[m as int], range, flash_end));
                }
            }
            assert forall|part: Part| #[trigger]
                work.parts.contains(part) implies exists|i: int|
                0 <= i < all.len() && comes_from(t, v, part, #[trigger] all[i], flash_end) by {
                let k = work.parts.index_of(part);
                if k < front.parts.len() {
                    assert(front.parts[k] == part);
                    assert(front.parts.contains(part));
                    let i = choose|i: int|
                        0 <= i < before.len() && comes_from(
                            t,
                            u,
                            part,
                            #[trigger] before[i],
                            flash_end,
                        );
                    assert(all[i] == before[i]);
                    lemma_comes_from_inside(t, t, u, v, part, all[i], flash_end);
                } else {
                    assert(more.parts[k - front.parts.len()] == part);
                    assert(more.parts.contains(part));
                    assert(comes_from(u, v, part, last, flash_end));
                    lemma_comes_from_inside(t, u, v, v, part, last, flash_end);
                    assert(comes_from(t, v, part, all[m as int], flash_end));
                }
            }
            assert forall|i: int| 0 <= i < all.len() implies is_whole(
                t,
                v,
                #[trigger] all[i],
                work.ranges,
                work.parts,
                flash_end,
            ) by {
                if i < m {
                    assert(all[i] == before[i]);
                    lemma_whole_inside(t, t, u, v, all[i], front, work, flash_end);
                } else {
                    assert(is_whole(
                        u,
                        v,
                        seq![last][0],
                        more.ranges,
                        more.parts,
                        flash_end,
                    ));
                    lemma_whole_inside(t, u, v, v, last, more, work, flash_end);
                }
            }
        }
    }
}

/// Ranges in another order are still those of the given parts.
proof fn lemma_order_does_not_matter(
    t: Trail,
    u: Trail,
    given: Seq<Part>,
    work: Work,
    sorted: Work,
    flash_end: u32,
)
    requires
        walk::leads_to(t, u),
        are_of(t, u, given, work, flash_end),
        sorted.parts == work.parts,
        forall|range: Range<u32>|
            sorted.ranges.contains(range) <==> work.ranges.contains(range),
    ensures
        are_of(t, u, given, sorted, flash_end),
{
    assert forall|range: Range<u32>| #[trigger]
        sorted.ranges.contains(range) implies exists|i: int|
        0 <= i < given.len() && fills(t, u, #[trigger] given[i], range, flash_end) by {
        assert(work.ranges.contains(range));
    }
    assert forall|i: int| 0 <= i < given.len() implies is_whole(
        t,
        u,
        #[trigger] given[i],
        sorted.ranges,
        sorted.parts,
        flash_end,
    ) by {
        lemma_whole_inside(t, t, u, u, given[i], work, sorted, flash_end);
    }
}

/// One raw file that is planned fills a range in flash.
proof fn lemma_single(t: Trail, given: Part, flash_end: u32)
    requires
        t.at >= 0,
        given.format is Bin,
    ensures
        flash::all_planned(t, seq![given], 1, flash_end) matches (u, Ok(work)) ==> exists|
            range: Range<u32>,
        |
            #[trigger] fills(t, u, given, range, flash_end) && 0x40_0000 <= range.start && range.end
                <= flash_end,
{
    let one = seq![given];
    reveal_with_fuel(flash::all_planned, 2);
    if let (u, Ok(work)) = flash::all_planned(t, one, 1, flash_end) {
        assert(one[0] == given);
        reveal(flash::part_planned);
        reveal(flash::bin_planned);
        walk::lemma_told(t, Request::FileSize(given.file));
        let range = flash::bin_planned(t, given, flash_end).1->Ok_0;
        assert(fills(t, u, given, range, flash_end));
    }
}

/// Whether a plan is for the given files and for nothing else.
pub open spec fn is_plan_for(
    t: Trail,
    u: Trail,
    plan: Plan,
    given: Seq<Part>,
    flash_end: u32,
) -> bool {
    match plan {
        Plan::Single => given.len() == 1 && given[0].format is Bin && exists|range: Range<u32>|
            #[trigger] fills(t, u, given[0], range, flash_end) && 0x40_0000 <= range.start
                && range.end <= flash_end,
        Plan::Ranges { ranges, parts } => are_of(
            t,
            u,
            given,
            Work { ranges, parts },
            flash_end,
        ),
    }
}

/// A plan is for the given files and for nothing else. Each part of it is a given raw or ELF file,
/// at the address that was given for it, or a chunk of a given Intel HEX file at the address of the
/// chunk. Each range is filled by a given file. All of each given file is in the plan.
pub proof fn law_plan_is_for_the_given_files(t: Trail, given: Seq<Part>, flash_end: u32)
    requires
        t.at >= 0,
    ensures
        flash::planned(t, given, flash_end) matches (u, Ok(plan)) ==> is_plan_for(
            t,
            u,
            plan,
            given,
            flash_end,
        ),
{
    if let (u, Ok(plan)) = flash::planned(t, given, flash_end) {
        reveal(flash::planned);
        let n = given.len();
        if plan is Single {
            assert(given =~= seq![given[0]]);
            lemma_single(t, given[0], flash_end);
        } else {
            lemma_all_planned(t, given, n, flash_end);
            flash::lemma_all_planned(t, given, n, flash_end);
            assert(given.take(n as int) =~= given);
            let work = flash::all_planned(t, given, n, flash_end).1->Ok_0;
            assert(image::hold_something(work.ranges));
            image::law_accepted_ranges_are_disjoint(work.ranges);
            let sorted = Work { ranges: plan->ranges, parts: work.parts };
            lemma_order_does_not_matter(t, u, given, work, sorted, flash_end);
        }
    }
}

/// How an image came to be written.
pub struct Flashing {
    /// Where the configuration has been read.
    pub configured: Trail,
    /// Where the files that the user means are known.
    pub chosen: Trail,
    /// Where the chip is known.
    pub identified: Trail,
    /// Where the plan has been made.
    pub planned: Trail,
    /// The address that the user gives.
    pub address: Option<u32>,
    /// The files that the user means.
    pub parts: Seq<Part>,
    /// The chip.
    pub chip: ChipInfo,
    /// The plan.
    pub plan: Plan,
}

/// Whether an image was written between two points of a walk, and how: the files are those that the
/// user means, the plan is for these files, and it was carried out after it had been made.
pub open spec fn did_flash(
    t: Trail,
    u: Trail,
    how: Flashing,
    images: Seq<ImageEntry>,
    target: Seq<char>,
    addr: Option<Seq<char>>,
    verify: bool,
    run_after: bool,
) -> bool {
    let flash_end = (0x40_0000 + how.chip.flash.size) as u32;
    &&& walk::leads_to(t, how.configured)
    &&& how.address is None <==> addr is None
    &&& addr is Some ==> how.address->0 as nat == wording::named_address(addr, 0)
    &&& are_meant(how.configured, how.chosen, how.parts, target, how.address, images)
    &&& outcomes::did_find_chip(how.chosen, how.identified, how.chip)
    &&& how.chip.flash.wf()
    &&& is_plan_for(how.identified, how.planned, how.plan, how.parts, flash_end)
    &&& outcomes::is_written(how.planned, u, how.plan, how.parts, verify, run_after)
}

/// Writing an image succeeds only when the files that the user means were written where they belong:
/// a named image of the configuration, or one file, each part at the address that was given for it
/// or that the file itself gives, in the flash that was erased for it.
pub proof fn law_flash_writes_what_the_user_means(cli: Cli, t: Trail)
    requires
        t.at >= 0,
        commands::executed(t, cli).1 is Ok,
    ensures
        cli.command matches Commands::Flash { target, addr, verify, run_after } ==> {
            &&& config::loaded(t, text::maybe(cli.config)).1 matches Ok(catalog)
            &&& exists|how: Flashing|
                did_flash(
                    t,
                    commands::executed(t, cli).0,
                    how,
                    catalog.images,
                    target@,
                    text::maybe(addr),
                    verify,
                    run_after,
                )
        },
{
    if let Commands::Flash { target, addr, verify, run_after } = cli.command {
        let reach = Reach::Anything;
        let end = commands::executed(t, cli).0;
        let explicit = text::maybe(cli.config);
        reveal(commands::executed);
        reveal(commands::flash_image);
        reveal(commands::flash_done);
        promises::lemma_loaded(t, explicit, reach);
        let (u, catalog) = config::loaded(t, explicit);
        let images = catalog->Ok_0.images;
        wording::law_given_address_is_the_named_one(text::maybe(addr));
        let address = commands::given_address(text::maybe(addr))->Ok_0;
        promises::lemma_prepared(u, target@, address, images, reach);
        law_files_are_those_of_the_user(u, target@, address, images);
        let (v, parts) = flash::prepared(u, target@, address, images);
        let parts = parts->Ok_0;
        promises::lemma_connected(v, cli.options, false, reach);
        let (x, entry) = session::connected(v, cli.options, false);
        promises::lemma_chip_read(x, reach);
        chip::law_chip_is_sound(x);
        let (y, chip) = chip::chip_read(x);
        let chip = chip->Ok_0;
        let flash_end = commands::end_of_flash(chip);
        promises::lemma_planned(y, parts, flash_end, reach);
        law_plan_is_for_the_given_files(y, parts, flash_end);
        let (z, plan) = flash::planned(y, parts, flash_end);
        let plan = plan->Ok_0;
        flash::law_plan_is_sound(y, parts, flash_end);
        promises::lemma_plan_done(z, plan, parts, verify, reach);
        let (done, _) = commands::plan_done(z, plan, parts, verify);
        let (last, _) = commands::flash_done(x, parts, verify, run_after);
        promises::lemma_reset_to_run(done, "ok: reset, running"@, reach);
        promises::lemma_dropped(last, false, reach);
        outcomes::lemma_plan_is_carried_out(z, plan, parts, verify);
        if run_after {
            reveal(commands::reset_to_run);
            promises::lemma_run_of(done, "reset run"@, reach);
            outcomes::lemma_run_has_run(done, "reset run"@);
            let (ran, _) = session::run_of(done, "reset run"@);
            outcomes::lemma_has_run_inside(done, done, ran, end, "reset run"@);
        }
        assert(outcomes::is_written_up_to(z, done, end, plan, parts, verify, run_after));
        assert(outcomes::did_find_chip(v, y, chip)) by {
            assert(walk::leads_to(chip::chip_read(x).0, y));
        }
        let how = Flashing {
            configured: u,
            chosen: v,
            identified: y,
            planned: z,
            address,
            parts,
            chip,
            plan,
        };
        assert(did_flash(
            t,
            end,
            how,
            images,
            target@,
            text::maybe(addr),
            verify,
            run_after,
        ));
    }
}

/// Whether a command carries out a part of a plan: it erases a range of it, writes a part of it, or
/// compares flash with one where that is wanted.
pub open spec fn carries_out(tcl: Seq<char>, plan: Plan, given: Seq<Part>, verify: bool) -> bool {
    match plan {
        Plan::Single => {
            let part = given[0];
            ||| wording::erases_and_writes(
                tcl,
                wording::file_of(part),
                part.addr as nat,
                wording::format_name(part.format),
            )
            ||| verify && wording::verifies(
                tcl,
                wording::file_of(part),
                part.addr as nat,
                wording::format_name(part.format),
            )
        },
        Plan::Ranges { ranges, parts } => {
            ||| exists|i: int|
                0 <= i < ranges.len() && wording::erases(
                    tcl,
                    (#[trigger] ranges[i]).start as nat,
                    (ranges[i].end - ranges[i].start) as nat,
                )
            ||| exists|i: int|
                0 <= i < parts.len() && writes_or_verifies(tcl, #[trigger] parts[i], verify)
        },
    }
}

/// Whether a command writes a part into erased flash, or compares flash with it where that is wanted.
pub open spec fn writes_or_verifies(tcl: Seq<char>, part: Part, verify: bool) -> bool {
    ||| wording::writes(
        tcl,
        wording::file_of(part),
        part.addr as nat,
        wording::format_name(part.format),
    )
    ||| verify && wording::verifies(
        tcl,
        wording::file_of(part),
        part.addr as nat,
        wording::format_name(part.format),
    )
}

/// Writing an image sends nothing but what carries out the plan for it, the reset where wanted, and
/// what only watches; flash is compared only where that is wanted.
pub proof fn law_flash_sends_nothing_else(cli: Cli, t: Trail)
    requires
        t.at >= 0,
    ensures
        cli.command matches Commands::Flash { target, addr, verify, run_after }
            ==> outcomes::sends_only(
            cli,
            t,
            |tcl: Seq<char>|
                {
                    &&& promises::image_plan(
                        t,
                        cli.options,
                        text::maybe(cli.config),
                        target@,
                        text::maybe(addr),
                    ) matches Some((plan, parts))
                    &&& carries_out(tcl, plan, parts, verify) || (run_after && tcl == "reset run"@)
                },
        ),
{
    if let Commands::Flash { target, addr, verify, run_after } = cli.command {
        let explicit = text::maybe(cli.config);
        let found = promises::image_plan(
            t,
            cli.options,
            explicit,
            target@,
            text::maybe(addr),
        );
        let allowed = |tcl: Seq<char>|
            {
                &&& promises::image_plan(
                    t,
                    cli.options,
                    text::maybe(cli.config),
                    target@,
                    text::maybe(addr),
                ) matches Some((plan, parts))
                &&& carries_out(tcl, plan, parts, verify) || (run_after && tcl == "reset run"@)
            };
        let reach = Reach::Allow(allowed);
        if let Some((plan, parts)) = found {
            let (u, catalog) = config::loaded(t, explicit);
            let address = commands::given_address(text::maybe(addr))->Ok_0;
            let (v, _) = flash::prepared(u, target@, address, catalog->Ok_0.images);
            let (x, _) = session::connected(v, cli.options, false);
            let (y, chip) = chip::chip_read(x);
            let flash_end = commands::end_of_flash(chip->Ok_0);
            flash::law_plan_is_sound(y, parts, flash_end);
            match plan {
                Plan::Single => {
                    wording::law_part_commands_name_the_part(parts[0]);
                    assert(allowed(parts[0].write_command(true)));
                    assert(verify ==> allowed(parts[0].verify_command()));
                },
                Plan::Ranges { ranges, parts: out } => {
                    assert forall|i: int| 0 <= i < ranges.len() implies promises::may_run(
                        reach,
                        image::erase_command(#[trigger] ranges[i]),
                    ) by {
                        wording::law_erase_command_names_its_range(ranges[i]);
                        assert(allowed(image::erase_command(ranges[i])));
                    }
                    assert forall|i: int| 0 <= i < out.len() implies promises::may_run(
                        reach,
                        (#[trigger] out[i]).write_command(false),
                    ) && (verify ==> promises::may_run(reach, out[i].verify_command())) by {
                        let part = out[i];
                        wording::law_part_commands_name_the_part(part);
                        assert(writes_or_verifies(part.write_command(false), out[i], verify));
                        assert(verify ==> writes_or_verifies(
                            part.verify_command(),
                            out[i],
                            verify,
                        ));
                        assert(allowed(part.write_command(false)));
                        assert(verify ==> allowed(part.verify_command()));
                    }
                },
            }
        }
        promises::lemma_flash_image(
            t,
            cli.options,
            explicit,
            target@,
            text::maybe(addr),
            verify,
            run_after,
            reach,
        );
        reveal(commands::executed);
        outcomes::lemma_sends_only(cli, t, allowed);
    }
}

} // verus!
