//! The Tcl side of the link to OpenOCD: quoting, requests and replies.
use crate::error;
use crate::error::{AppError, AppResult, Failure, SessionError, Trouble};
use crate::number;
use crate::number::parse_unsigned;
use crate::text;
use crate::text::{cat, cat3, cat4, cat5, chars_of, decimal_text, find, text_between, trim, words};
use vstd::prelude::*;
use vstd::utf8::*;

verus! {

/// The byte that ends each request and each reply.
pub const RPC_EOM: u8 = 0x1a;

/// What stands between the result and the output in the reply to a wrapped command.
pub const MARK: &'static str = "---SAM4E-OUT---";

/// How a character is written inside a Tcl string.
pub open spec fn escape(c: char) -> Seq<char> {
    match c {
        '\\' => seq!['\\', '\\'],
        '"' => seq!['\\', '"'],
        '$' => seq!['\\', '$'],
        '[' => seq!['\\', '['],
        ']' => seq!['\\', ']'],
        '\n' => seq!['\\', 'n'],
        '\r' => seq!['\\', 'r'],
        '\t' => seq!['\\', 't'],
        '\u{1a}' => seq!['\\', 'x', '1', 'a'],
        _ => seq![c],
    }
}

/// How a text is written inside a Tcl string.
pub open spec fn escaped(s: Seq<char>) -> Seq<char>
    decreases s.len(),
{
    if s.len() == 0 {
        Seq::empty()
    } else {
        escaped(s.drop_last()) + escape(s.last())
    }
}

/// A Tcl string that stands for exactly the text `s`.
pub open spec fn literal(s: Seq<char>) -> Seq<char> {
    seq!['"'] + escaped(s) + seq!['"']
}

/// Adds one escaped character.
fn push_escaped(quoted: &mut String, c: char)
    ensures
        final(quoted)@ == old(quoted)@ + escape(c),
{
    let letter: char = match c {
        '\\' | '"' | '$' | '[' | ']' => c,
        '\n' => 'n',
        '\r' => 'r',
        '\t' => 't',
        '\u{1a}' => 'x',
        _ => {
            quoted.push(c);
            return ;
        },
    };
    quoted.push('\\');
    quoted.push(letter);
    if c == '\u{1a}' {
        quoted.push('1');
        quoted.push('a');
    }
}

/// Quotes a text as a Tcl string.
pub fn tcl_literal(value: &str) -> (quoted: String)
    ensures
        quoted@ == literal(value@),
{
    let mut quoted = String::new();
    quoted.push('"');
    assert(quoted@ =~= seq!['"'] + escaped(value@.take(0)));
    for c in it: value.chars()
        invariant
            it.seq() == value@,
            quoted@ == seq!['"'] + escaped(value@.take(it.index())),
    {
        proof {
            assert(value@.take(it.index() + 1).drop_last() =~= value@.take(it.index()));
        }
        push_escaped(&mut quoted, c);
        assert(quoted@ =~= seq!['"'] + escaped(value@.take(it.index() + 1)));
    }
    assert(value@.take(value@.len() as int) =~= value@);
    quoted.push('"');
    assert(quoted@ =~= literal(value@));
    quoted
}

/// A script that runs a command and replies with its result, the mark and its output.
pub open spec fn wrapper(tcl: Seq<char>) -> Seq<char> {
    "set __cmd "@ + literal(tcl)
        + "\nset __rc [catch [list capture $__cmd] __out]\nappend __rc \"\\n"@ + MARK@
        + "\\n\" $__out"@
}

/// Wraps a command so that its reply tells whether it failed.
pub fn rpc_wrapper(tcl: &str) -> (script: String)
    ensures
        script@ == wrapper(tcl@),
{
    let command = tcl_literal(tcl);
    cat5(
        "set __cmd ",
        command.as_str(),
        "\nset __rc [catch [list capture $__cmd] __out]\nappend __rc \"\\n",
        MARK,
        "\\n\" $__out",
    )
}

/// The bytes that carry a script.
pub open spec fn frame(script: Seq<char>) -> Seq<u8> {
    encode_utf8(script).push(RPC_EOM)
}

/// Makes the bytes that carry a script.
pub fn rpc_frame(script: &str) -> (bytes: Vec<u8>)
    ensures
        bytes@ == frame(script@),
{
    let mut bytes: Vec<u8> = Vec::new();
    bytes.extend_from_slice(script.as_bytes());
    bytes.push(RPC_EOM);
    assert(bytes@ =~= frame(script@));
    bytes
}

/// Where `part` first stands in `s`.
pub open spec fn first_at(s: Seq<char>, part: Seq<char>) -> int {
    choose|i: int|
        text::occurs_at(s, part, i) && forall|j: int| 0 <= j < i ==> !text::occurs_at(s, part, j)
}

/// The line with the mark.
pub open spec fn mark_line() -> Seq<char> {
    "\n"@ + MARK@ + "\n"@
}

/// The output in the reply to a wrapped command, or what went wrong.
pub open spec fn run_response(raw: Seq<char>, tcl: Seq<char>) -> Result<Seq<char>, Trouble> {
    let at = first_at(raw, mark_line());
    let result = text::trimmed(raw.take(at));
    let output = text::trimmed(raw.skip(at + mark_line().len()));
    if !text::occurs(raw, mark_line()) {
        Err(error::retryable("invalid response from OpenOCD: "@ + raw))
    } else if result == "0"@ {
        Ok(output)
    } else if output.len() == 0 {
        Err(error::retryable("OpenOCD command failed: "@ + tcl))
    } else {
        Err(error::retryable(output))
    }
}

/// Whether `result` is what `expected` says.
pub open spec fn agrees(result: Result<String, SessionError>, expected: Result<Seq<char>, Trouble>) -> bool {
    match expected {
        Ok(value) => result is Ok && result->Ok_0@ == value,
        Err(trouble) => result is Err && result->Err_0@ == trouble,
    }
}

/// The first position is unique.
proof fn lemma_first_at(s: Seq<char>, part: Seq<char>, i: int)
    requires
        text::occurs_at(s, part, i),
        forall|j: int| 0 <= j < i ==> !text::occurs_at(s, part, j),
    ensures
        first_at(s, part) == i,
{
    let k = first_at(s, part);
    assert(text::occurs_at(s, part, k));
    assert(!(k < i));
    assert(!(i < k));
}

/// Reads the reply to a wrapped command.
pub fn parse_run_response(raw: &str, tcl: &str) -> (result: Result<String, SessionError>)
    ensures
        agrees(result, run_response(raw@, tcl@)),
{
    let chars = chars_of(raw);
    let mark = chars_of(cat3("\n", MARK, "\n").as_str());
    match find(&chars, &mark) {
        None => Err(SessionError::retryable(cat("invalid response from OpenOCD: ", raw).as_str())),
        Some(at) => {
            proof {
                lemma_first_at(raw@, mark_line(), at as int);
                assert(raw@.subrange(0, at as int) =~= raw@.take(at as int));
                assert(raw@.subrange(at + mark@.len(), raw@.len() as int) =~= raw@.skip(
                    at + mark@.len(),
                ));
            }
            let len: usize = chars.len();
            assert(at + mark@.len() <= len);
            let result = trim(text_between(&chars, 0, at).as_str());
            let output = trim(text_between(&chars, at + mark.len(), len).as_str());
            if text::same(result.as_str(), "0") {
                Ok(output)
            } else if output.as_str().is_empty() {
                Err(SessionError::retryable(cat("OpenOCD command failed: ", tcl).as_str()))
            } else {
                Err(SessionError::retryable(output.as_str()))
            }
        },
    }
}

/// The text of bytes that are perhaps not valid UTF-8.
pub uninterp spec fn lossy_text(bytes: Seq<u8>) -> Seq<char>;

/// Calls `String::from_utf8_lossy`. The text depends on the bytes alone, and is the text that they
/// encode where they are valid UTF-8. What stands for bytes that are not is left unsaid.
#[verifier::external_body]
pub(crate) fn text_from(bytes: &[u8]) -> (text: String)
    ensures
        text@ == lossy_text(bytes@),
        valid_utf8(bytes@) ==> text@ == decode_utf8(bytes@),
{
    String::from_utf8_lossy(bytes).into_owned()
}

/// The text of a reply: the text that its bytes encode where they are valid UTF-8.
pub open spec fn reply_text(bytes: Seq<u8>) -> Seq<char> {
    if valid_utf8(bytes) {
        decode_utf8(bytes)
    } else {
        lossy_text(bytes)
    }
}

/// The value of one word of memory as OpenOCD writes it: hexadecimal behind `0x`, else decimal.
pub open spec fn word_value(word: Seq<char>) -> Option<nat> {
    if word.len() >= 2 && word[0] == '0' && word[1] == 'x' {
        number::unsigned(word.skip(2), 16, u32::MAX as nat)
    } else {
        number::unsigned(word, 10, u32::MAX as nat)
    }
}

/// The values of some words, or the first that is none.
pub open spec fn word_values(words: Seq<Seq<char>>) -> Result<Seq<u32>, Failure>
    decreases words.len(),
{
    if words.len() == 0 {
        Ok(Seq::empty())
    } else {
        match word_values(words.drop_last()) {
            Err(failure) => Err(failure),
            Ok(values) => match word_value(words.last()) {
                Some(value) => Ok(values.push(value as u32)),
                None => Err(
                    Failure::Runtime("invalid word from OpenOCD: "@ + words.last()),
                ),
            },
        }
    }
}

/// The `count` values in a reply, or what is wrong with it.
pub open spec fn memory_values(reply: Seq<char>, count: nat) -> Result<Seq<u32>, Failure> {
    let values = word_values(text::words_of(reply));
    if values is Ok && values->Ok_0.len() != count {
        Err(
            Failure::Runtime(
                "incomplete memory data from OpenOCD: expected "@ + text::decimal(count)
                    + " values, got "@ + text::decimal(values->Ok_0.len()),
            ),
        )
    } else {
        values
    }
}

/// Whether `result` is what `expected` says.
pub open spec fn agrees_list<T>(result: AppResult<Vec<T>>, expected: Result<Seq<T>, Failure>) -> bool {
    match expected {
        Ok(values) => result is Ok && result->Ok_0@ == values,
        Err(failure) => result is Err && result->Err_0@ == failure,
    }
}

/// Reads one word of memory.
fn parse_word(word: &str) -> (result: Option<u32>)
    ensures
        match result {
            Some(value) => word_value(word@) == Some(value as nat),
            None => word_value(word@) is None,
        },
{
    let chars = chars_of(word);
    let value = if chars.len() >= 2 && chars[0] == '0' && chars[1] == 'x' {
        parse_unsigned(&chars, 2, 16, u32::MAX as u64)
    } else {
        assert(chars@.skip(0) =~= chars@);
        parse_unsigned(&chars, 0, 10, u32::MAX as u64)
    };
    match value {
        Some(value) => Some(value as u32),
        None => None,
    }
}

/// The first bad word decides.
proof fn lemma_bad_word_stays(words: Seq<Seq<char>>, n: int)
    requires
        0 <= n <= words.len(),
        word_values(words.take(n)) is Err,
    ensures
        word_values(words) == word_values(words.take(n)),
    decreases words.len() - n,
{
    if n == words.len() {
        assert(words.take(n) =~= words);
    } else {
        assert(words.take(n + 1).drop_last() =~= words.take(n));
        lemma_bad_word_stays(words, n + 1);
    }
}

/// Reads the reply to a request for `count` values of memory.
pub fn parse_memory(reply: &str, count: usize) -> (result: AppResult<Vec<u32>>)
    ensures
        agrees_list(result, memory_values(reply@, count as nat)),
{
    let found = words(reply);
    let ghost all = text::words_of(reply@);
    let mut values: Vec<u32> = Vec::new();
    let mut i: usize = 0;
    assert(all.take(0) =~= Seq::<Seq<char>>::empty());
    while i < found.len()
        invariant
            i <= found@.len(),
            all == text::words_of(reply@),
            text::views(found@) == all,
            word_values(all.take(i as int)) == Ok::<Seq<u32>, Failure>(values@),
        decreases found@.len() - i,
    {
        let ghost word = all[i as int];
        proof {
            assert(all.take(i + 1).drop_last() =~= all.take(i as int));
            assert(all.take(i + 1).last() == word);
            assert(found@[i as int]@ == word);
        }
        match parse_word(found[i].as_str()) {
            Some(value) => values.push(value),
            None => {
                proof {
                    lemma_bad_word_stays(all, i + 1);
                }
                return Err(
                    AppError::Runtime(cat("invalid word from OpenOCD: ", found[i].as_str())),
                );
            },
        }
        i += 1;
    }
    assert(all.take(i as int) =~= all);
    if values.len() != count {
        return Err(
            AppError::Runtime(
                cat4(
                    "incomplete memory data from OpenOCD: expected ",
                    decimal_text(count as u64).as_str(),
                    " values, got ",
                    decimal_text(values.len() as u64).as_str(),
                ),
            ),
        );
    }
    Ok(values)
}

/// The bytes that some values are, or the first that is none.
pub open spec fn byte_values(values: Seq<u32>) -> Result<Seq<u8>, Failure>
    decreases values.len(),
{
    if values.len() == 0 {
        Ok(Seq::empty())
    } else {
        match byte_values(values.drop_last()) {
            Err(failure) => Err(failure),
            Ok(bytes) => if values.last() <= u8::MAX {
                Ok(bytes.push(values.last() as u8))
            } else {
                Err(
                    Failure::Runtime(
                        "invalid byte from OpenOCD: "@ + text::decimal(values.last() as nat),
                    ),
                )
            },
        }
    }
}

/// The first bad byte decides.
proof fn lemma_bad_byte_stays(values: Seq<u32>, n: int)
    requires
        0 <= n <= values.len(),
        byte_values(values.take(n)) is Err,
    ensures
        byte_values(values) == byte_values(values.take(n)),
    decreases values.len() - n,
{
    if n == values.len() {
        assert(values.take(n) =~= values);
    } else {
        assert(values.take(n + 1).drop_last() =~= values.take(n));
        lemma_bad_byte_stays(values, n + 1);
    }
}

/// Narrows values to bytes.
pub fn narrow(values: &Vec<u32>) -> (result: AppResult<Vec<u8>>)
    ensures
        agrees_list(result, byte_values(values@)),
        result matches Ok(bytes) ==> bytes@.len() == values@.len(),
{
    let mut bytes: Vec<u8> = Vec::new();
    let mut i: usize = 0;
    assert(values@.take(0) =~= Seq::<u32>::empty());
    while i < values.len()
        invariant
            i <= values@.len(),
            bytes@.len() == i,
            byte_values(values@.take(i as int)) == Ok::<Seq<u8>, Failure>(bytes@),
        decreases values@.len() - i,
    {
        proof {
            assert(values@.take(i + 1).drop_last() =~= values@.take(i as int));
        }
        let value: u32 = values[i];
        if value > u8::MAX as u32 {
            proof {
                lemma_bad_byte_stays(values@, i + 1);
            }
            return Err(
                AppError::Runtime(
                    cat("invalid byte from OpenOCD: ", decimal_text(value as u64).as_str()),
                ),
            );
        }
        bytes.push(value as u8);
        i += 1;
    }
    assert(values@.take(i as int) =~= values@);
    Ok(bytes)
}

/// An end byte among the bytes of a character comes from the end character.
proof fn lemma_scalar_bytes(c: char)
    ensures
        forall|i: int|
            0 <= i < encode_scalar(c as u32).len() && (#[trigger] encode_scalar(c as u32)[i])
                == RPC_EOM ==> c == '\u{1a}',
{
    char_is_scalar(c);
    let v = c as u32;
    assert(has_width_1_encoding(v) ==> leading_byte_width_1(v) == v) by {
        assert(v <= 0x7f ==> (v & 0x7f) as u8 == v) by (bit_vector);
    }
    assert(leading_byte_width_2(v) >= 0x80) by {
        assert(0xC0 | ((v >> 6) & 0x1F) as u8 >= 0x80) by (bit_vector);
    }
    assert(leading_byte_width_3(v) >= 0x80) by {
        assert(0xE0 | ((v >> 12) & 0x0F) as u8 >= 0x80) by (bit_vector);
    }
    assert(leading_byte_width_4(v) >= 0x80) by {
        assert(0xF0 | ((v >> 18) & 0x7) as u8 >= 0x80) by (bit_vector);
    }
    assert(last_continuation_byte(v) >= 0x80) by {
        assert(0x80 | (v & 0x3F) as u8 >= 0x80) by (bit_vector);
    }
    assert(second_last_continuation_byte(v) >= 0x80) by {
        assert(0x80 | ((v >> 6) & 0x3F) as u8 >= 0x80) by (bit_vector);
    }
    assert(third_last_continuation_byte(v) >= 0x80) by {
        assert(0x80 | ((v >> 12) & 0x3F) as u8 >= 0x80) by (bit_vector);
    }
}

/// An end byte among the bytes of a text comes from an end character in the text.
proof fn lemma_end_byte(s: Seq<char>)
    requires
        !s.contains('\u{1a}'),
    ensures
        !encode_utf8(s).contains(RPC_EOM),
    decreases s.len(),
{
    if s.len() > 0 {
        let head = encode_scalar(s[0] as u32);
        let tail = s.drop_first();
        assert(!tail.contains('\u{1a}')) by {
            assert(forall|i: int| 0 <= i < tail.len() ==> tail[i] == s[i + 1]);
        }
        lemma_end_byte(tail);
        lemma_scalar_bytes(s[0]);
        assert forall|i: int| 0 <= i < encode_utf8(s).len() implies encode_utf8(s)[i] != RPC_EOM by {
            if i < head.len() {
                assert(encode_utf8(s)[i] == head[i]);
                assert(s.contains(s[0]));
            } else {
                assert(encode_utf8(s)[i] == encode_utf8(tail)[i - head.len()]);
                assert(encode_utf8(tail).contains(encode_utf8(tail)[i - head.len()]));
            }
        }
    }
}

/// The bytes of a request, or of a reply, hold the end byte once, as the last byte, where the text
/// does not hold the end character.
pub proof fn law_frame_ends_once(script: Seq<char>, i: int)
    requires
        !script.contains('\u{1a}'),
        0 <= i < frame(script).len(),
    ensures
        frame(script)[i] == RPC_EOM <==> i == frame(script).len() - 1,
{
    lemma_end_byte(script);
    let bytes = encode_utf8(script);
    if i < bytes.len() {
        assert(bytes.contains(bytes[i]));
    }
}

/// An escaped text does not hold the end character.
proof fn lemma_escaped(s: Seq<char>)
    ensures
        !escaped(s).contains('\u{1a}'),
    decreases s.len(),
{
    if s.len() > 0 {
        lemma_escaped(s.drop_last());
        let head = escaped(s.drop_last());
        assert forall|i: int| 0 <= i < escaped(s).len() implies escaped(s)[i] != '\u{1a}' by {
            if i < head.len() {
                assert(head.contains(head[i]));
            } else {
                assert(escaped(s)[i] == escape(s.last())[i - head.len()]);
            }
        }
    }
}

/// A command cannot end its own request early: the wrapped command holds no end character, so its
/// bytes hold the end byte once, behind the whole script.
pub proof fn law_wrapped_command_is_one_request(tcl: Seq<char>, i: int)
    requires
        0 <= i < frame(wrapper(tcl)).len(),
    ensures
        !wrapper(tcl).contains('\u{1a}'),
        frame(wrapper(tcl))[i] == RPC_EOM <==> i == frame(wrapper(tcl)).len() - 1,
{
    lemma_escaped(tcl);
    reveal_strlit("set __cmd ");
    reveal_strlit("\nset __rc [catch [list capture $__cmd] __out]\nappend __rc \"\\n");
    reveal_strlit("---SAM4E-OUT---");
    reveal_strlit("\\n\" $__out");
    let a = "set __cmd "@;
    let b = escaped(tcl);
    let c = "\nset __rc [catch [list capture $__cmd] __out]\nappend __rc \"\\n"@;
    let d = MARK@;
    let e = "\\n\" $__out"@;
    let w = wrapper(tcl);
    assert(!w.contains('\u{1a}')) by {
        assert(w =~= a + seq!['"'] + b + seq!['"'] + c + d + e);
        assert forall|k: int| 0 <= k < w.len() implies w[k] != '\u{1a}' by {
            let k1 = k - a.len() - 1;
            if 0 <= k1 < b.len() {
                assert(w[k] == b[k1]);
                assert(b.contains(b[k1]));
            }
        }
    }
    law_frame_ends_once(w, i);
}

/// Escaping goes character by character, from the front as from the back.
proof fn lemma_escaped_front(s: Seq<char>)
    requires
        s.len() > 0,
    ensures
        escaped(s) == escape(s[0]) + escaped(s.drop_first()),
    decreases s.len(),
{
    if s.len() == 1 {
        assert(s.drop_first() =~= Seq::<char>::empty());
        assert(s.drop_last() =~= Seq::<char>::empty());
        assert(escaped(s) =~= escape(s[0]) + escaped(s.drop_first()));
    } else {
        let front = s.drop_last();
        lemma_escaped_front(front);
        assert(front.drop_first() =~= s.drop_first().drop_last());
        assert(escaped(s) =~= escape(s[0]) + (escaped(front.drop_first()) + escape(s.last())));
    }
}

/// Texts that are escaped alike are equal.
proof fn lemma_escaped_injective(a: Seq<char>, b: Seq<char>)
    requires
        escaped(a) == escaped(b),
    ensures
        a == b,
    decreases a.len(),
{
    if a.len() > 0 {
        lemma_escaped_front(a);
    }
    if b.len() > 0 {
        lemma_escaped_front(b);
    }
    if a.len() == 0 || b.len() == 0 {
        assert(a.len() > 0 ==> escape(a[0]).len() > 0 && escaped(a).len() > 0);
        assert(b.len() > 0 ==> escape(b[0]).len() > 0 && escaped(b).len() > 0);
        assert(a =~= b);
    } else {
        let e = escaped(a);
        let x = escape(a[0]);
        let y = escape(b[0]);
        assert(e[0] == x[0] && e[0] == y[0]);
        if x.len() > 1 {
            assert(e[1] == x[1]);
        }
        if y.len() > 1 {
            assert(e[1] == y[1]);
        }
        assert(a[0] == b[0]);
        assert(escaped(a.drop_first()) =~= e.skip(x.len() as int));
        assert(escaped(b.drop_first()) =~= e.skip(x.len() as int));
        lemma_escaped_injective(a.drop_first(), b.drop_first());
        assert(a =~= seq![a[0]] + a.drop_first());
        assert(b =~= seq![b[0]] + b.drop_first());
    }
}

/// A Tcl string stands for one text: no two texts are quoted alike.
pub proof fn law_literal_is_injective(a: Seq<char>, b: Seq<char>)
    requires
        literal(a) == literal(b),
    ensures
        a == b,
{
    assert(escaped(a) =~= literal(a).subrange(1, literal(a).len() - 1));
    assert(escaped(b) =~= literal(b).subrange(1, literal(b).len() - 1));
    lemma_escaped_injective(a, b);
}

/// The bytes of a script stand for no other script.
pub proof fn law_frame_is_injective(a: Seq<char>, b: Seq<char>)
    requires
        frame(a) == frame(b),
    ensures
        a == b,
{
    assert(encode_utf8(a) =~= frame(a).drop_last());
    assert(encode_utf8(b) =~= frame(b).drop_last());
    encode_utf8_decode_utf8(a);
    encode_utf8_decode_utf8(b);
}

/// A request carries one command: no two commands are sent as the same bytes.
pub proof fn law_request_carries_one_command(a: Seq<char>, b: Seq<char>)
    requires
        frame(wrapper(a)) == frame(wrapper(b)),
    ensures
        a == b,
{
    law_frame_is_injective(wrapper(a), wrapper(b));
    let head = "set __cmd "@;
    let tail = "\nset __rc [catch [list capture $__cmd] __out]\nappend __rc \"\\n"@ + MARK@
        + "\\n\" $__out"@;
    let w = wrapper(a);
    assert(wrapper(a) =~= head + literal(a) + tail);
    assert(wrapper(b) =~= head + literal(b) + tail);
    assert(literal(a) =~= w.subrange(head.len() as int, w.len() - tail.len()));
    assert(literal(b) =~= w.subrange(head.len() as int, w.len() - tail.len()));
    law_literal_is_injective(a, b);
}

/// A wrapped command begins with a word of its own.
pub proof fn lemma_wrapper_begins(tcl: Seq<char>)
    ensures
        wrapper(tcl).len() > 2,
        wrapper(tcl)[0] == 's',
        wrapper(tcl)[1] == 'e',
{
    reveal_strlit("set __cmd ");
}

/// What a command prints does not change whether it failed: where the result is one line, the reply
/// is split behind it, whatever the output holds, the mark itself included.
pub proof fn law_output_cannot_forge_the_result(
    result: Seq<char>,
    output: Seq<char>,
    tcl: Seq<char>,
)
    requires
        !result.contains('\n'),
    ensures
        run_response(result + mark_line() + output, tcl) == if text::trimmed(result) == "0"@ {
            Ok(text::trimmed(output))
        } else if text::trimmed(output).len() == 0 {
            Err(error::retryable("OpenOCD command failed: "@ + tcl))
        } else {
            Err(error::retryable(text::trimmed(output)))
        },
{
    reveal_strlit("\n");
    let raw = result + mark_line() + output;
    let at = result.len() as int;
    assert(raw.subrange(at, at + mark_line().len()) =~= mark_line());
    assert(text::occurs_at(raw, mark_line(), at));
    assert forall|j: int| 0 <= j < at implies !text::occurs_at(raw, mark_line(), j) by {
        if text::occurs_at(raw, mark_line(), j) {
            assert(raw.subrange(j, j + mark_line().len())[0] == mark_line()[0]);
            assert(raw[j] == result[j]);
            assert(result.contains(result[j]));
        }
    }
    lemma_first_at(raw, mark_line(), at);
    assert(raw.take(at) =~= result);
    assert(raw.skip(at + mark_line().len()) =~= output);
}

/// The character that two hexadecimal digits in a Tcl string stand for.
pub open spec fn tcl_code(high: char, low: char) -> Option<char> {
    match (number::digit_value(high), number::digit_value(low)) {
        (Some(a), Some(b)) => if a < 16 && b < 16 {
            Some(((16 * a + b) as u8) as char)
        } else {
            None
        },
        _ => None,
    }
}

/// What Tcl makes of the characters between two double quotes: a backslash stands with what follows
/// it for one character, and neither a variable, a command nor the end of the string may come in
/// between.
pub open spec fn tcl_read(s: Seq<char>) -> Option<Seq<char>>
    decreases s.len(),
{
    if s.len() == 0 {
        Some(Seq::empty())
    } else if s[0] == '"' || s[0] == '$' || s[0] == '[' {
        None
    } else if s[0] != '\\' {
        match tcl_read(s.skip(1)) {
            None => None,
            Some(rest) => Some(seq![s[0]] + rest),
        }
    } else if s.len() == 1 {
        None
    } else if s[1] == 'x' {
        if s.len() < 4 {
            None
        } else {
            match (tcl_code(s[2], s[3]), tcl_read(s.skip(4))) {
                (Some(c), Some(rest)) => Some(seq![c] + rest),
                _ => None,
            }
        }
    } else {
        let c = match s[1] {
            'n' => '\n',
            'r' => '\r',
            't' => '\t',
            other => other,
        };
        match tcl_read(s.skip(2)) {
            None => None,
            Some(rest) => Some(seq![c] + rest),
        }
    }
}

/// Tcl reads an escaped text as the text itself.
proof fn lemma_escaped_is_read_back(s: Seq<char>)
    ensures
        tcl_read(escaped(s)) == Some(s),
    decreases s.len(),
{
    if s.len() == 0 {
        assert(s =~= Seq::empty());
    } else {
        let rest = s.drop_first();
        let e = escape(s[0]);
        let all = escaped(s);
        lemma_escaped_front(s);
        lemma_escaped_is_read_back(rest);
        assert(all.skip(e.len() as int) =~= escaped(rest));
        assert(all[0] == e[0]);
        if e.len() > 1 {
            assert(all[1] == e[1]);
        }
        if e.len() > 2 {
            assert(all[2] == '1' && all[3] == 'a');
            assert(tcl_code('1', 'a') == Some('\u{1a}'));
        }
        assert(seq![s[0]] + rest =~= s);
    }
}

/// A Tcl string is read as the text that it was made for: nothing in the text is taken for a
/// variable, a command or the end of the string.
pub proof fn law_literal_is_read_back(s: Seq<char>)
    ensures
        literal(s).len() >= 2,
        literal(s)[0] == '"',
        literal(s).last() == '"',
        tcl_read(literal(s).subrange(1, literal(s).len() - 1)) == Some(s),
{
    assert(literal(s).subrange(1, literal(s).len() - 1) =~= escaped(s));
    lemma_escaped_is_read_back(s);
}

} // verus!
