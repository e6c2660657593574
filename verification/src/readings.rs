//! What holds of what is read from the target.
use vstd::prelude::*;

use crate::chip;
use crate::number;
use crate::outcomes;
use crate::promises;
use crate::promises::Reach;
use crate::session;
use crate::target;
use crate::tcl;
use crate::text;
use crate::walk;
use crate::walk::{Request, Trail};
use crate::wording;

verus! {

/// Whether a word was given to the flash controller as a command between two points of a walk, and
/// the controller then got some time for it.
pub open spec fn did_command(t: Trail, u: Trail, word: nat) -> bool {
    exists|w: Trail, tcl: Seq<char>|
        wording::stores(tcl, 0x400e_0a04, word) && #[trigger] outcomes::has_run(t, w, tcl)
            && outcomes::did_ask(w, u, Request::Sleep(20))
}

/// A command to the flash controller was given to it.
proof fn lemma_commanded(t: Trail, command: u32)
    requires
        t.at >= 0,
        chip::commanded(t, command).1 is Ok,
    ensures
        did_command(t, chip::commanded(t, command).0, command as nat),
        walk::leads_to(t, chip::commanded(t, command).0),
{
    let reach = Reach::Anything;
    let end = chip::commanded(t, command).0;
    reveal(chip::commanded);
    reveal(session::written);
    let words = seq![command];
    let tcl = session::write_request(chip::EEFC_FCR, words);
    promises::lemma_run_of(t, tcl, reach);
    outcomes::lemma_run_has_run(t, tcl);
    let (u, _) = session::run_of(t, tcl);
    outcomes::lemma_act_asked(u, Request::Sleep(20));
    wording::law_write_request_names_its_word(chip::EEFC_FCR, command);
    assert(outcomes::has_run(t, u, tcl));
}

/// Whether words were read one after the other from the result register of the flash controller, each
/// between two points of a walk.
pub open spec fn are_read_in_turn(points: Seq<Trail>, words: Seq<u32>) -> bool {
    &&& points.len() == words.len() + 1
    &&& forall|i: int|
        0 <= i < words.len() ==> outcomes::did_read(
            points[i],
            points[i + 1],
            0x400e_0a0c,
            32,
            1,
            seq![#[trigger] words[i]],
        )
}

/// Whether words were read one after the other from the result register of the flash controller
/// between two points of a walk.
pub open spec fn did_read_results(t: Trail, u: Trail, words: Seq<u32>) -> bool {
    exists|points: Seq<Trail>|
        #[trigger] are_read_in_turn(points, words) && points[0] == t && points.last() == u
}

/// A word of the result register was read from it.
proof fn lemma_result_read(t: Trail)
    requires
        t.at >= 0,
        chip::result_read(t).1 is Ok,
    ensures
        outcomes::did_read(
            t,
            chip::result_read(t).0,
            0x400e_0a0c,
            32,
            1,
            seq![chip::result_read(t).1->Ok_0],
        ),
        walk::leads_to(t, chip::result_read(t).0),
{
    reveal(chip::result_read);
    promises::lemma_memory_of(t, chip::EEFC_FRR, 32, 1, Reach::Anything);
    let (u, words) = session::memory_of(t, chip::EEFC_FRR, 32, 1);
    outcomes::lemma_memory_was_read(t, u, chip::EEFC_FRR, 32, 1);
    assert(words->Ok_0.len() == 1) by {
        reveal(session::memory_of);
    }
    assert(words->Ok_0 =~= seq![words->Ok_0[0]]);
}

/// Words of the result register were read from it in turn.
proof fn lemma_results_read(t: Trail, n: nat)
    requires
        t.at >= 0,
        chip::results_read(t, n).1 is Ok,
    ensures
        chip::results_read(t, n).1->Ok_0.len() == n,
        did_read_results(t, chip::results_read(t, n).0, chip::results_read(t, n).1->Ok_0),
        walk::leads_to(t, chip::results_read(t, n).0),
    decreases n,
{
    if n > 0 {
        let m = (n - 1) as nat;
        lemma_results_read(t, m);
        let (u, words) = chip::results_read(t, m);
        lemma_result_read(u);
        let (v, word) = chip::result_read(u);
        let front = words->Ok_0;
        let all = front.push(word->Ok_0);
        let points = choose|points: Seq<Trail>|
            #[trigger] are_read_in_turn(points, front) && points[0] == t && points.last() == u;
        assert(are_read_in_turn(points.push(v), all)) by {
            assert forall|i: int| 0 <= i < all.len() implies outcomes::did_read(
                points.push(v)[i],
                points.push(v)[i + 1],
                0x400e_0a0c,
                32,
                1,
                seq![#[trigger] all[i]],
            ) by {
                if i < front.len() {
                    assert(all[i] == front[i]);
                }
            }
        }
    } else {
        assert(are_read_in_turn(seq![t], Seq::empty()));
        assert(chip::results_read(t, 0).1->Ok_0 =~= Seq::empty());
    }
}

/// Words that are read behind other words are read in turn with them.
proof fn lemma_results_together(t: Trail, u: Trail, v: Trail, head: Seq<u32>, tail: Seq<u32>)
    requires
        did_read_results(t, u, head),
        did_read_results(u, v, tail),
    ensures
        did_read_results(t, v, head + tail),
{
    let a = choose|points: Seq<Trail>|
        #[trigger] are_read_in_turn(points, head) && points[0] == t && points.last() == u;
    let b = choose|points: Seq<Trail>|
        #[trigger] are_read_in_turn(points, tail) && points[0] == u && points.last() == v;
    let all = head + tail;
    let points = a + b.skip(1);
    assert forall|i: int| 0 <= i < all.len() implies outcomes::did_read(
        points[i],
        points[i + 1],
        0x400e_0a0c,
        32,
        1,
        seq![#[trigger] all[i]],
    ) by {
        if i < head.len() {
            assert(all[i] == head[i]);
        } else {
            let k = i - head.len();
            assert(all[i] == tail[k]);
            assert(points[i] == b[k]);
            assert(points[i + 1] == b[k + 1]);
        }
    }
    assert(are_read_in_turn(points, all));
    assert(points.last() == v);
}

/// Whether the GPNVM bits were read as a word from the flash controller between two points of a walk.
pub open spec fn did_read_gpnvm(t: Trail, u: Trail, word: u32) -> bool {
    exists|w: Trail|
        #[trigger] did_command(t, w, 0x5a00_000d) && outcomes::did_read(
            w,
            u,
            0x400e_0a0c,
            32,
            1,
            seq![word],
        )
}

/// The GPNVM bits are those in the word that the flash controller reports for them: the security bit
/// counts least, and the bit for the boot source comes next.
pub proof fn law_gpnvm_bits_are_those_of_the_controller(t: Trail)
    requires
        t.at >= 0,
    ensures
        chip::gpnvm_read(t) matches (u, Ok(bits)) ==> exists|word: u32|
            #[trigger] did_read_gpnvm(t, u, word) && target::are_bits_of(bits, word),
{
    if let (u, Ok(bits)) = chip::gpnvm_read(t) {
        reveal(chip::gpnvm_read);
        lemma_commanded(t, chip::GET_GPNVM);
        let (v, _) = chip::commanded(t, chip::GET_GPNVM);
        lemma_result_read(v);
        let word = chip::result_read(v).1->Ok_0;
        target::law_gpnvm_bits_are_the_lowest(word);
        assert(did_read_gpnvm(t, u, word)) by {
            assert(did_command(t, v, 0x5a00_000d));
        }
    }
}

/// How a chip came to be known.
pub struct Finding {
    /// Where its identity has been read.
    pub identified: Trail,
    /// Where its flash controller has been asked for the descriptor.
    pub asked: Trail,
    /// The words of the descriptor.
    pub words: Seq<u32>,
}

/// Whether a chip is what was read between two points of a walk: its identity is in the words of the
/// identity registers, and its flash geometry in the words of the descriptor.
pub open spec fn is_chip_read(t: Trail, u: Trail, how: Finding, found: target::ChipInfo) -> bool {
    let words = how.words;
    let planes = found.flash.planes as int;
    &&& outcomes::did_read(
        t,
        how.identified,
        0x400e_0740,
        32,
        2,
        seq![found.cidr, found.exid],
    )
    &&& found.exid == 0x0012_0209
    &&& did_command(how.identified, how.asked, 0x5a00_0000)
    &&& did_read_results(how.asked, u, words)
    &&& 1 <= planes <= 8
    &&& words.len() == 6 + planes
    &&& found.flash.id == words[0]
    &&& found.flash.size == words[1]
    &&& found.flash.page_size == words[2]
    &&& found.flash.planes == words[3]
    &&& target::total(words.subrange(4, 4 + planes)) == found.flash.size
    &&& found.flash.lock_regions == words[4 + planes]
    &&& found.flash.lock_size == words[5 + planes]
}

/// The chip is what was read from the target.
pub proof fn law_chip_is_what_was_read(t: Trail)
    requires
        t.at >= 0,
    ensures
        chip::chip_read(t) matches (u, Ok(found)) ==> exists|how: Finding|
            is_chip_read(t, u, how, found),
{
    if let (u, Ok(found)) = chip::chip_read(t) {
        let reach = Reach::Anything;
        reveal(chip::chip_read);
        reveal(chip::identity_read);
        promises::lemma_memory_of(t, chip::CHIPID_CIDR, 32, 2, reach);
        let (a, words) = session::memory_of(t, chip::CHIPID_CIDR, 32, 2);
        outcomes::lemma_memory_was_read(t, a, chip::CHIPID_CIDR, 32, 2);
        assert(words->Ok_0.len() == 2) by {
            reveal(session::memory_of);
        }
        assert(words->Ok_0 =~= seq![found.cidr, found.exid]);
        lemma_commanded(a, chip::GET_DESCRIPTOR);
        let (b, _) = chip::commanded(a, chip::GET_DESCRIPTOR);
        reveal(chip::descriptor_read);
        lemma_results_read(b, 4);
        let (c, head) = chip::results_read(b, 4);
        let head = head->Ok_0;
        let n = (head[3] + 2) as nat;
        lemma_results_read(c, n);
        let tail = chip::results_read(c, n).1->Ok_0;
        lemma_results_together(b, c, u, head, tail);
        let how = Finding { identified: a, asked: b, words: head + tail };
        assert(is_chip_read(t, u, how, found));
    }
}

/// Words with spaces between them are found again as these words.
pub proof fn law_joined_words_are_found_again(words: Seq<Seq<char>>)
    requires
        forall|i: int| 0 <= i < words.len() ==> wording::is_word(#[trigger] words[i]),
    ensures
        text::words_of(text::joined(words, " "@)) == words,
    decreases words.len(),
{
    reveal_strlit(" ");
    if words.len() == 0 {
        assert(text::words_of(text::joined(words, " "@)) =~= words);
    } else {
        let w = words[0];
        let rest = words.skip(1);
        assert(wording::is_word(w));
        assert forall|i: int| 0 <= i < rest.len() implies wording::is_word(#[trigger] rest[i]) by {
            assert(rest[i] == words[i + 1]);
        }
        law_joined_words_are_found_again(rest);
        lemma_joined_front(words);
        let s = text::joined(words, " "@);
        assert(!text::white_space(s[0])) by {
            assert(s[0] == w[0]);
        }
        assert(text::trim_start(s) == s);
        text::lemma_word_len_is(s, w.len());
        assert(s.take(w.len() as int) =~= w);
        let behind = s.skip(w.len() as int);
        if words.len() == 1 {
            assert(behind =~= Seq::empty());
            assert(text::words_of(behind) =~= Seq::empty());
            assert(text::words_of(s) =~= words);
        } else {
            let t = text::joined(rest, " "@);
            assert(behind =~= " "@ + t);
            assert(behind.skip(1) =~= t);
            assert(text::trim_start(behind) == text::trim_start(t));
            assert(text::words_of(behind) == text::words_of(t));
            assert(text::words_of(s) =~= words);
        }
    }
}

/// Words are put together from the front as from the back.
proof fn lemma_joined_front(words: Seq<Seq<char>>)
    requires
        words.len() > 0,
    ensures
        text::joined(words, " "@) == if words.len() == 1 {
            words[0]
        } else {
            words[0] + " "@ + text::joined(words.skip(1), " "@)
        },
    decreases words.len(),
{
    if words.len() == 2 {
        assert(words.drop_last() =~= seq![words[0]]);
        assert(words.skip(1) =~= seq![words[1]]);
        assert(text::joined(words.drop_last(), " "@) == words[0]);
        assert(text::joined(words.skip(1), " "@) == words[1]);
    } else if words.len() > 2 {
        let front = words.drop_last();
        lemma_joined_front(front);
        assert(front.skip(1) =~= words.skip(1).drop_last());
        assert(words.skip(1).last() == words.last());
        assert(text::joined(words, " "@) =~= words[0] + " "@ + (text::joined(
            front.skip(1),
            " "@,
        ) + " "@ + words.last()));
    }
}

/// A number that is written in hexadecimal or in decimal is read as this number.
pub proof fn law_memory_word_is_read_back(n: u32)
    ensures
        tcl::word_value(text::hex(n as nat)) == Some(n as nat),
        tcl::word_value(text::decimal(n as nat)) == Some(n as nat),
{
    reveal_strlit("0x");
    let h = text::digits(n as nat, 16);
    let d = text::digits(n as nat, 10);
    number::lemma_digits(n as nat, 16);
    number::lemma_digits(n as nat, 10);
    assert(text::hex(n as nat).skip(2) =~= h);
    assert(h[0] != '+') by {
        assert('0' <= h[0] <= '9' || 'a' <= h[0] <= 'f');
    }
    assert(d[0] != '+') by {
        assert('0' <= d[0] <= '9' || 'a' <= d[0] <= 'f');
    }
    if d.len() >= 2 {
        assert(number::is_digit(d[1], 10));
        assert(d[1] != 'x');
    }
}

/// The values of words are those of each word.
proof fn lemma_word_values(words: Seq<Seq<char>>)
    ensures
        match tcl::word_values(words) {
            Ok(values) => values.len() == words.len() && forall|i: int|
                0 <= i < words.len() ==> tcl::word_value(#[trigger] words[i]) == Some(
                    values[i] as nat,
                ),
            Err(_) => exists|i: int|
                0 <= i < words.len() && tcl::word_value(#[trigger] words[i]) is None,
        },
    decreases words.len(),
{
    if words.len() > 0 {
        let front = words.drop_last();
        lemma_word_values(front);
        match tcl::word_values(front) {
            Ok(values) => {
                assert(words.last() == words[words.len() - 1]);
                if let Ok(all) = tcl::word_values(words) {
                    assert forall|i: int| 0 <= i < words.len() implies tcl::word_value(
                        #[trigger] words[i],
                    ) == Some(all[i] as nat) by {
                        if i < front.len() {
                            assert(front[i] == words[i]);
                        }
                    }
                }
            },
            Err(_) => {
                let i = choose|i: int|
                    0 <= i < front.len() && tcl::word_value(#[trigger] front[i]) is None;
                assert(words[i] == front[i]);
            },
        }
    }
}

/// Values that OpenOCD writes in hexadecimal, with a space between each two, are read back as these
/// values, and a reply with another number of values is rejected.
pub proof fn law_memory_is_read_back(values: Seq<u32>, count: nat)
    ensures
        tcl::memory_values(text::joined(session::hex_words(values), " "@), count) matches Ok(found)
            ==> found == values && count == values.len(),
        tcl::memory_values(text::joined(session::hex_words(values), " "@), count) is Ok <==> count
            == values.len(),
{
    let words = session::hex_words(values);
    assert forall|i: int| 0 <= i < words.len() implies wording::is_word(#[trigger] words[i]) by {
        wording::law_hex_is_a_word(values[i] as u64);
    }
    law_joined_words_are_found_again(words);
    lemma_word_values(words);
    assert forall|i: int| 0 <= i < words.len() implies tcl::word_value(#[trigger] words[i]) == Some(
        values[i] as nat,
    ) by {
        law_memory_word_is_read_back(values[i]);
    }
    if let Ok(found) = tcl::word_values(words) {
        assert forall|i: int| 0 <= i < values.len() implies found[i] == values[i] by {
            assert(tcl::word_value(words[i]) == Some(values[i] as nat));
        }
        assert(found =~= values);
    }
}

/// Values are bytes where each of them is small enough, and then the bytes are these values.
pub proof fn law_bytes_are_the_values(values: Seq<u32>)
    ensures
        match tcl::byte_values(values) {
            Ok(bytes) => bytes.len() == values.len() && forall|i: int|
                0 <= i < values.len() ==> (#[trigger] bytes[i]) as u32 == values[i],
            Err(_) => exists|i: int| 0 <= i < values.len() && (#[trigger] values[i]) > 255,
        },
    decreases values.len(),
{
    if values.len() > 0 {
        let front = values.drop_last();
        law_bytes_are_the_values(front);
        match tcl::byte_values(front) {
            Ok(bytes) => {
                assert(values.last() == values[values.len() - 1]);
            },
            Err(_) => {
                let i = choose|i: int| 0 <= i < front.len() && (#[trigger] front[i]) > 255;
                assert(values[i] == front[i]);
            },
        }
    }
}

} // verus!
