//! What input is accepted, and what waits for the user.
use vstd::prelude::*;

use crate::commands;
use crate::commands::{Cli, Commands};
use crate::flash;
use crate::image;
use crate::number;
use crate::outcomes;
use crate::promises;
use crate::promises::Reach;
use crate::session;
use crate::target;
use crate::target::ChipInfo;
use crate::text;
use crate::walk;
use crate::walk::{Halt, Reply, Request, Trail};

verus! {

/// A number stands for a flash address where it, counted from the start of flash if it lies below
/// that, fits in 32 bits, and only then.
pub proof fn law_flash_addresses_fit(value: nat)
    ensures
        ({
            let address = if value < 0x40_0000 {
                value + 0x40_0000
            } else {
                value
            };
            match target::flash_address(value) {
                Ok(found) => found == address,
                Err(_) => address > 0xffff_ffff,
            }
        }),
{
}

/// An address is accepted where it is a number that stands for a flash address, and only then.
pub proof fn law_given_address_is_accepted(given: Seq<char>)
    ensures
        commands::given_address(Some(given)) is Ok <==> number::number(given) is Ok
            && target::flash_address(number::number(given)->Ok_0) is Ok,
        commands::given_address(None) == Ok::<Option<u32>, crate::error::Failure>(None),
{
}

/// A range is erased where it is not empty and lies in flash, and only then; all flash can always be
/// erased.
pub proof fn law_ranges_in_flash_can_be_erased(
    start: Option<u32>,
    end: Option<u32>,
    chip: ChipInfo,
)
    requires
        chip.flash.wf(),
    ensures
        ({
            let flash_end = 0x40_0000 + chip.flash.size;
            let first = if start is Some {
                start->0 as int
            } else {
                0x40_0000
            };
            let last = if end is Some {
                end->0 as int
            } else {
                flash_end
            };
            commands::erasure(start, end, chip) is Ok <==> 0x40_0000 <= first && first < last
                && last <= flash_end
        }),
{
}

/// Memory is read from an address in 32 bits on, as many bytes as are asked for, at least one, where
/// the last one still has such an address; anything else is rejected.
pub proof fn law_memory_in_reach_can_be_read(address: Seq<char>, length: Seq<char>)
    ensures
        match commands::read_range(address, length) {
            Ok((first, count)) => {
                &&& number::number(address) == Ok::<nat, Seq<char>>(first as nat)
                &&& number::number(length) == Ok::<nat, Seq<char>>(count as nat)
                &&& count > 0
                &&& first + count <= 0x1_0000_0000
            },
            Err(_) => {
                ||| number::number(address) is Err
                ||| number::number(length) is Err
                ||| number::number(length)->Ok_0 == 0
                ||| number::number(length)->Ok_0 > usize::MAX
                ||| number::number(address)->Ok_0 + number::number(length)->Ok_0 > 0x1_0000_0000
            },
        },
{
}

/// Two GPNVM bits can be changed; setting the security bit needs force.
pub proof fn law_gpnvm_changes_are_allowed(bit: u8, value: u8, force: bool)
    requires
        value <= 1,
    ensures
        commands::gpnvm_allowed(bit, value, force) is Ok <==> bit == 1 || bit == 0 && (value == 0
            || force),
{
}

/// A debug server has ended well where its exit code is zero; else the program ends with its code, or
/// fails where there is none.
pub proof fn law_server_code_is_passed_on(code: Option<i32>)
    ensures
        commands::server_end(code) is Ok <==> code == Some(0i32),
        code is Some && code != Some(0i32) ==> commands::server_end(code)
            == Err::<(), crate::error::Failure>(crate::error::Failure::Exit(code->0 as int)),
{
}

/// Whether an answer is yes: `y` or `yes`, in either case, with nothing but white space round it.
pub open spec fn says_yes(answer: Seq<char>) -> bool {
    exists|before: Seq<char>, word: Seq<char>, after: Seq<char>|
        #[trigger] number::all_white(before) && #[trigger] number::all_white(after) && answer
            == before + word + after && (#[trigger] text::lowered(word) == "y"@ || text::lowered(word) == "yes"@)
}

/// White space in front is trimmed.
proof fn lemma_trimmed_front(s: Seq<char>)
    ensures
        exists|before: Seq<char>|
            #[trigger] number::all_white(before) && s == before + text::trim_start(s),
    decreases s.len(),
{
    if s.len() > 0 && text::white_space(s[0]) {
        let rest = s.skip(1);
        lemma_trimmed_front(rest);
        let before = choose|before: Seq<char>|
            #[trigger] number::all_white(before) && rest == before + text::trim_start(rest);
        let all = seq![s[0]] + before;
        assert(number::all_white(all)) by {
            assert forall|i: int| 0 <= i < all.len() implies text::white_space(#[trigger] all[i]) by {
                if i > 0 {
                    assert(all[i] == before[i - 1]);
                }
            }
        }
        let inner = text::trim_start(rest);
        assert(text::trim_start(s) == inner);
        assert(s =~= seq![s[0]] + rest);
        assert(seq![s[0]] + (before + inner) =~= all + inner);
    } else {
        assert(number::all_white(Seq::<char>::empty()));
        assert(s =~= Seq::<char>::empty() + s);
    }
}

/// White space behind is trimmed.
proof fn lemma_trimmed_back(s: Seq<char>)
    ensures
        exists|after: Seq<char>| #[trigger] number::all_white(after) && s == text::trim_end(s) + after,
    decreases s.len(),
{
    if s.len() > 0 && text::white_space(s.last()) {
        let front = s.drop_last();
        lemma_trimmed_back(front);
        let after = choose|after: Seq<char>|
            #[trigger] number::all_white(after) && front == text::trim_end(front) + after;
        let all = after.push(s.last());
        assert(number::all_white(all)) by {
            assert forall|i: int| 0 <= i < all.len() implies text::white_space(#[trigger] all[i]) by {
                if i < after.len() {
                    assert(all[i] == after[i]);
                }
            }
        }
        let inner = text::trim_end(front);
        assert(text::trim_end(s) == inner);
        assert(s =~= front.push(s.last()));
        assert((inner + after).push(s.last()) =~= inner + all);
    } else {
        assert(number::all_white(Seq::<char>::empty()));
        assert(s =~= s + Seq::<char>::empty());
    }
}

/// An answer is taken for yes where it says so, and only then.
pub proof fn law_answer_is_taken_for_yes(answer: Seq<char>)
    ensures
        commands::is_yes(answer) <==> says_yes(answer),
{
    if commands::is_yes(answer) {
        let rest = text::trim_start(answer);
        let word = text::trimmed(answer);
        lemma_trimmed_front(answer);
        lemma_trimmed_back(rest);
        let before = choose|before: Seq<char>|
            #[trigger] number::all_white(before) && answer == before + rest;
        let after = choose|after: Seq<char>|
            #[trigger] number::all_white(after) && rest == word + after;
        assert(answer =~= before + word + after);
        assert(text::lowered(word) == "y"@ || text::lowered(word) == "yes"@);
    }
    if says_yes(answer) {
        let (before, word, after) = choose|before: Seq<char>, word: Seq<char>, after: Seq<char>|
            #[trigger] number::all_white(before) && #[trigger] number::all_white(after) && answer
                == before + word + after && (#[trigger] text::lowered(word) == "y"@ || text::lowered(word)
                == "yes"@);
        lemma_word_is_trimmed(before, word, after);
    }
}

/// White space round a word that is `y` or `yes` is trimmed.
proof fn lemma_word_is_trimmed(before: Seq<char>, word: Seq<char>, after: Seq<char>)
    requires
        number::all_white(before),
        number::all_white(after),
        text::lowered(word) == "y"@ || text::lowered(word) == "yes"@,
    ensures
        text::trimmed(before + word + after) == word,
{
    reveal_strlit("y");
    reveal_strlit("yes");
    assert(word.len() == text::lowered(word).len());
    let first = word[0];
    let last = word.last();
    assert(text::lowered(word)[0] == text::lower_char(first));
    assert(text::lowered(word).last() == text::lower_char(last));
    assert(!text::white_space(first));
    assert(!text::white_space(last));
    number::lemma_trimmed_white(before + word, after);
    number::lemma_trim_start_white(before, word);
}

/// Whether the user was asked on a terminal between two points of a walk, and has said yes.
pub open spec fn did_agree(t: Trail, u: Trail, question: Seq<char>) -> bool {
    &&& walk::told(t, u, Request::InputIsTerminal, Reply::Flag(true))
    &&& walk::told(t, u, Request::ErrorIsTerminal, Reply::Flag(true))
    &&& walk::told(t, u, Request::Prompt(question + " [y/N] "@), Reply::Done)
    &&& exists|answer: String|
        #[trigger] walk::told(t, u, Request::ReadLine, Reply::Text(answer)) && says_yes(answer@)
}

/// What the user confirms was asked, and answered with yes.
proof fn lemma_confirmed(t: Trail, u: Trail, question: Seq<char>)
    requires
        t.at >= 0,
        commands::confirmed(t, question).1 == Ok::<bool, Halt>(true),
        walk::leads_to(commands::confirmed(t, question).0, u),
    ensures
        did_agree(t, u, question),
{
    let end = commands::confirmed(t, question).0;
    reveal(commands::confirmed);
    walk::lemma_told(t, Request::InputIsTerminal);
    let (a, _) = walk::ask(t, Request::InputIsTerminal);
    walk::lemma_told(a, Request::ErrorIsTerminal);
    let (b, _) = walk::ask(a, Request::ErrorIsTerminal);
    let prompt = Request::Prompt(question + " [y/N] "@);
    walk::lemma_told(b, prompt);
    let (c, _) = walk::ask(b, prompt);
    walk::lemma_told(c, Request::ReadLine);
    let answer = walk::ask(c, Request::ReadLine).1->Ok_0->Text_0;
    law_answer_is_taken_for_yes(answer@);
    walk::lemma_told_inside(t, t, a, u, Request::InputIsTerminal, Reply::Flag(true));
    walk::lemma_told_inside(t, a, b, u, Request::ErrorIsTerminal, Reply::Flag(true));
    walk::lemma_told_inside(t, b, c, u, prompt, Reply::Done);
    walk::lemma_told_inside(t, c, end, u, Request::ReadLine, Reply::Text(answer));
}

/// Whether a command succeeds, or asks for something that is no part of the dialogue with the user.
pub open spec fn goes_further(outcome: Result<(), Halt>) -> bool {
    match outcome {
        Ok(()) => true,
        Err(Halt::Ask(request)) => !promises::is_dialogue(request),
        _ => false,
    }
}

/// An erase without `--yes` succeeds, or goes further than the question, only when the user was asked
/// about this range on a terminal and has said yes.
pub proof fn law_erase_needs_a_yes(cli: Cli, t: Trail)
    requires
        t.at >= 0,
        goes_further(commands::executed(t, cli).1),
    ensures
        cli.command matches Commands::Erase { start, end, yes: false } ==> exists|
            a: Option<u32>,
            b: Option<u32>,
        |
            commands::given_address(text::maybe(start)) == Ok::<Option<u32>, crate::error::Failure>(a)
                && commands::given_address(text::maybe(end)) == Ok::<
                Option<u32>,
                crate::error::Failure,
            >(b) && #[trigger] commands::erase_question(a, b) is Ok && did_agree(
                t,
                commands::executed(t, cli).0,
                commands::erase_question(a, b)->Ok_0,
            ),
{
    if let Commands::Erase { start, end, yes: false } = cli.command {
        let reach = Reach::Anything;
        reveal(commands::executed);
        reveal(commands::erase);
        let a = commands::given_address(text::maybe(start))->Ok_0;
        let b = commands::given_address(text::maybe(end))->Ok_0;
        let question = commands::erase_question(a, b)->Ok_0;
        assert(commands::erase_question(a, b) is Ok);
        promises::lemma_confirmed(t, question, reach);
        let (u, answer) = commands::confirmed(t, question);
        assert(answer == Ok::<bool, Halt>(true)) by {
            reveal(commands::confirmed);
        }
        let body = |v: Trail, entry: crate::session::Entry| commands::erase_done(v, a, b);
        outcomes::lemma_erase_done_settles(a, b);
        promises::lemma_in_session(u, cli.options, false, body, reach);
        lemma_confirmed(t, commands::executed(t, cli).0, question);
    }
}

/// A serial number with a null byte is rejected before anything is asked for; any other one is
/// handed on.
pub proof fn law_null_byte_in_the_serial_is_rejected(cli: Cli, t: Trail)
    requires
        cli.options.serial is Some,
        cli.options.serial->0@.contains('\0'),
    ensures
        commands::executed(t, cli).0 == t,
        commands::executed(t, cli).1 matches Err(Halt::Fail(crate::error::Failure::Usage(_))),
{
    reveal(commands::executed);
}

/// Whether a descriptor is sound: its words tell of planes that make up the flash, which is made of
/// whole pages and whole lock regions and ends below the end of the address space.
pub open spec fn is_sound_descriptor(words: Seq<u32>) -> bool {
    let planes = words[3] as int;
    let size = words[1] as int;
    let page = words[2] as int;
    let regions = words[4 + planes] as int;
    let region = words[5 + planes] as int;
    &&& words.len() >= 7
    &&& 1 <= planes <= 8
    &&& words.len() >= 6 + planes
    &&& target::total(words.subrange(4, 4 + planes)) == size
    &&& 0 < size
    &&& 0x40_0000 + size <= 0xffff_ffff
    &&& 0 < page
    &&& size % page == 0
    &&& 0 < regions
    &&& 0 < region
    &&& region % page == 0
    &&& regions * region == size
}

/// A descriptor is accepted where it is sound, and only then.
pub proof fn law_sound_descriptors_are_accepted(words: Seq<u32>)
    ensures
        target::descriptor(words) is Ok <==> is_sound_descriptor(words),
{
}

/// Trouble with a command that changes or checks flash is told with the note that flash can be
/// incomplete behind it.
pub proof fn law_trouble_with_flash_is_noted(t: Trail, tcl: Seq<char>)
    ensures
        flash::flash_run(t, tcl).1 matches Err(Halt::Fail(failure)) ==> {
            &&& session::run_of(t, tcl).1 matches Err(Halt::Fail(cause))
            &&& !(cause is Exit) ==> failure.message() == cause.message()
                + "\nThe flash operation did not finish. The flash contents can be incomplete."@
        },
        flash::flash_run(t, tcl).1 is Ok <==> session::run_of(t, tcl).1 is Ok,
{
    reveal(flash::flash_run);
}

/// A raw file is accepted where it holds something and lies in flash from its first byte to its last,
/// and only then; it fills as many bytes as it holds.
pub proof fn law_fitting_file_is_accepted(file: Seq<char>, addr: u32, size: u64, flash_end: u32)
    ensures
        match image::bin_range(file, addr, size, flash_end) {
            Ok(range) => {
                &&& 0x40_0000 <= addr
                &&& size > 0
                &&& addr + size <= flash_end
                &&& range.start == addr
                &&& range.end == addr + size
            },
            Err(_) => addr < 0x40_0000 || size == 0 || addr + size > flash_end,
        },
{
}

/// The sizes of planes add up: those of two groups of planes make that of all.
pub proof fn law_plane_sizes_add_up(a: Seq<u32>, b: Seq<u32>)
    ensures
        target::total(a + b) == target::total(a) + target::total(b),
        a.len() == 1 ==> target::total(a) == a[0],
    decreases b.len(),
{
    if b.len() == 0 {
        assert(a + b =~= a);
    } else {
        law_plane_sizes_add_up(a, b.drop_last());
        assert((a + b).drop_last() =~= a + b.drop_last());
        assert((a + b).last() == b.last());
    }
    if a.len() == 1 {
        reveal_with_fuel(target::total, 2);
    }
}

} // verus!
