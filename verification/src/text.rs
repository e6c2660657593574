//! Text as sequences of characters: building, searching, splitting and number formatting.
use vstd::prelude::*;

verus! {

/// Trusted: `String::push` appends the given character and changes nothing else.
pub assume_specification[ String::push ](s: &mut String, c: char)
    ensures
        final(s)@ == old(s)@.push(c),
;

/// The texts of a list of strings.
pub open spec fn views(list: Seq<String>) -> Seq<Seq<char>> {
    list.map_values(|s: String| s@)
}

/// The text in `text`, if any.
pub open spec fn maybe(text: Option<String>) -> Option<Seq<char>> {
    match text {
        Some(text) => Some(text@),
        None => None,
    }
}

/// The characters of a text, in order.
pub fn chars_of(text: &str) -> (chars: Vec<char>)
    ensures
        chars@ == text@,
{
    let mut chars: Vec<char> = Vec::new();
    for c in it: text.chars()
        invariant
            it.seq() == text@,
            chars@ == text@.take(it.index() as int),
    {
        chars.push(c);
    }
    chars
}

/// The text made of `chars[from..to]`.
pub fn text_between(chars: &[char], from: usize, to: usize) -> (text: String)
    requires
        from <= to <= chars@.len(),
    ensures
        text@ == chars@.subrange(from as int, to as int),
{
    let mut text = String::new();
    let mut i: usize = from;
    while i < to
        invariant
            from <= i <= to <= chars@.len(),
            text@ == chars@.subrange(from as int, i as int),
        decreases to - i,
    {
        text.push(chars[i]);
        i += 1;
    }
    text
}

/// `a` followed by `b`.
pub fn cat(a: &str, b: &str) -> (text: String)
    ensures
        text@ == a@ + b@,
{
    let mut text = a.to_owned();
    text.append(b);
    text
}

/// `a`, `b` and `c`, one after the other.
pub fn cat3(a: &str, b: &str, c: &str) -> (text: String)
    ensures
        text@ == a@ + b@ + c@,
{
    let mut text = cat(a, b);
    text.append(c);
    text
}

/// `a`, `b`, `c` and `d`, one after the other.
pub fn cat4(a: &str, b: &str, c: &str, d: &str) -> (text: String)
    ensures
        text@ == a@ + b@ + c@ + d@,
{
    let mut text = cat3(a, b, c);
    text.append(d);
    text
}

/// `a`, `b`, `c`, `d` and `e`, one after the other.
pub fn cat5(a: &str, b: &str, c: &str, d: &str, e: &str) -> (text: String)
    ensures
        text@ == a@ + b@ + c@ + d@ + e@,
{
    let mut text = cat4(a, b, c, d);
    text.append(e);
    text
}

/// Whether two texts have the same characters.
pub fn same(a: &str, b: &str) -> (result: bool)
    ensures
        result == (a@ == b@),
{
    a.to_owned() == b.to_owned()
}

/// The characters with the Unicode property `White_Space`.
pub open spec fn white_space(c: char) -> bool {
    let n = c as int;
    ||| 0x9 <= n <= 0xd
    ||| n == 0x20
    ||| n == 0x85
    ||| n == 0xa0
    ||| n == 0x1680
    ||| 0x2000 <= n <= 0x200a
    ||| n == 0x2028
    ||| n == 0x2029
    ||| n == 0x202f
    ||| n == 0x205f
    ||| n == 0x3000
}

/// Whether `c` is white space.
pub fn is_white_space(c: char) -> (result: bool)
    ensures
        result == white_space(c),
{
    let n: u32 = c as u32;
    (0x9 <= n && n <= 0xd) || n == 0x20 || n == 0x85 || n == 0xa0 || n == 0x1680 || (0x2000 <= n
        && n <= 0x200a) || n == 0x2028 || n == 0x2029 || n == 0x202f || n == 0x205f || n == 0x3000
}

/// `s` without the white space at its start.
pub open spec fn trim_start(s: Seq<char>) -> Seq<char>
    decreases s.len(),
{
    if s.len() > 0 && white_space(s[0]) {
        trim_start(s.skip(1))
    } else {
        s
    }
}

/// `s` without the white space at its end.
pub open spec fn trim_end(s: Seq<char>) -> Seq<char>
    decreases s.len(),
{
    if s.len() > 0 && white_space(s.last()) {
        trim_end(s.drop_last())
    } else {
        s
    }
}

/// `s` without the white space at either end.
pub open spec fn trimmed(s: Seq<char>) -> Seq<char> {
    trim_end(trim_start(s))
}

/// The text without the white space at either end.
pub fn trim(text: &str) -> (result: String)
    ensures
        result@ == trimmed(text@),
{
    let chars = chars_of(text);
    let mut from: usize = 0;
    assert(text@.skip(0) == text@);
    while from < chars.len() && is_white_space(chars[from])
        invariant
            from <= chars@.len(),
            chars@ == text@,
            trim_start(text@) == trim_start(text@.skip(from as int)),
        decreases chars@.len() - from,
    {
        proof {
            assert(text@.skip(from as int).skip(1) == text@.skip(from + 1));
        }
        from += 1;
    }
    let mut to: usize = chars.len();
    let ghost start = text@.skip(from as int);
    proof {
        assert(trim_start(text@) == start);
        assert(text@.subrange(from as int, to as int) == start);
    }
    while from < to && is_white_space(chars[to - 1])
        invariant
            from <= to <= chars@.len(),
            chars@ == text@,
            trim_end(start) == trim_end(text@.subrange(from as int, to as int)),
        decreases to,
    {
        proof {
            let s = text@.subrange(from as int, to as int);
            assert(s.last() == text@[to - 1]);
            assert(s.drop_last() == text@.subrange(from as int, to - 1));
        }
        to -= 1;
    }
    proof {
        let s = text@.subrange(from as int, to as int);
        assert(from < to ==> s.last() == text@[to - 1]);
        assert(trim_end(s) == s);
    }
    text_between(&chars, from, to)
}

/// The ASCII lower-case form of a character.
pub open spec fn lower_char(c: char) -> char {
    if 'A' <= c <= 'Z' {
        (c as u8 + 32) as char
    } else {
        c
    }
}

/// `s` with its ASCII letters in lower case.
pub open spec fn lowered(s: Seq<char>) -> Seq<char> {
    s.map_values(|c: char| lower_char(c))
}

/// The ASCII lower-case form of a character.
pub fn to_lower_char(c: char) -> (result: char)
    ensures
        result == lower_char(c),
{
    if 'A' <= c && c <= 'Z' {
        (c as u8 + 32) as char
    } else {
        c
    }
}

/// The text with its ASCII letters in lower case.
pub fn to_lower(text: &str) -> (result: String)
    ensures
        result@ == lowered(text@),
{
    let chars = chars_of(text);
    let mut result = String::new();
    let mut i: usize = 0;
    while i < chars.len()
        invariant
            i <= chars@.len(),
            chars@ == text@,
            result@ == lowered(text@.take(i as int)),
        decreases chars@.len() - i,
    {
        result.push(to_lower_char(chars[i]));
        proof {
            assert(lowered(text@.take(i + 1)) == lowered(text@.take(i as int)).push(
                lower_char(text@[i as int]),
            ));
        }
        i += 1;
    }
    assert(text@.take(i as int) == text@);
    result
}

/// Whether `part` stands in `s` at position `i`.
pub open spec fn occurs_at(s: Seq<char>, part: Seq<char>, i: int) -> bool {
    0 <= i && i + part.len() <= s.len() && s.subrange(i, i + part.len()) == part
}

/// Whether `part` stands somewhere in `s`.
pub open spec fn occurs(s: Seq<char>, part: Seq<char>) -> bool {
    exists|i: int| occurs_at(s, part, i)
}

/// Whether `part` stands in `chars` at position `at`.
fn stands_at(chars: &[char], part: &[char], at: usize) -> (result: bool)
    requires
        at <= chars@.len(),
    ensures
        result == occurs_at(chars@, part@, at as int),
{
    let len: usize = chars.len();
    if part.len() > len - at {
        return false;
    }
    let mut i: usize = 0;
    while i < part.len()
        invariant
            i <= part@.len(),
            at + part@.len() <= chars@.len() == len,
            forall|j: int| 0 <= j < i ==> chars@[at + j] == part@[j],
        decreases part@.len() - i,
    {
        if chars[at + i] != part[i] {
            proof {
                assert(chars@.subrange(at as int, at + part@.len())[i as int] != part@[i as int]);
            }
            return false;
        }
        i += 1;
    }
    assert(chars@.subrange(at as int, at + part@.len()) =~= part@);
    true
}

/// The first position at which `part` stands in `chars`.
pub fn find(chars: &[char], part: &[char]) -> (result: Option<usize>)
    ensures
        match result {
            Some(i) => occurs_at(chars@, part@, i as int) && forall|j: int|
                0 <= j < i ==> !occurs_at(chars@, part@, j),
            None => !occurs(chars@, part@),
        },
{
    let mut i: usize = 0;
    loop
        invariant
            i <= chars@.len(),
            forall|j: int| 0 <= j < i ==> !occurs_at(chars@, part@, j),
        decreases chars@.len() - i,
    {
        if stands_at(chars, part, i) {
            return Some(i);
        }
        if i == chars.len() {
            return None;
        }
        i += 1;
    }
}

/// Whether `part` stands somewhere in `text`.
pub fn contains(text: &str, part: &str) -> (result: bool)
    ensures
        result == occurs(text@, part@),
{
    let chars = chars_of(text);
    let wanted = chars_of(part);
    find(&chars, &wanted).is_some()
}

/// The number of characters before the first white space.
pub open spec fn word_len(s: Seq<char>) -> nat
    decreases s.len(),
{
    if s.len() == 0 || white_space(s[0]) {
        0
    } else {
        1 + word_len(s.skip(1))
    }
}

/// A word is no longer than the text it starts.
pub proof fn lemma_word_len(s: Seq<char>)
    ensures
        word_len(s) <= s.len(),
        forall|i: int| 0 <= i < word_len(s) ==> !white_space(#[trigger] s[i]),
        word_len(s) < s.len() ==> white_space(s[word_len(s) as int]),
    decreases s.len(),
{
    if s.len() > 0 && !white_space(s[0]) {
        let rest = s.skip(1);
        lemma_word_len(rest);
        assert forall|i: int| 0 <= i < word_len(s) implies !white_space(#[trigger] s[i]) by {
            if i > 0 {
                assert(s[i] == rest[i - 1]);
            }
        }
        if word_len(s) < s.len() {
            assert(s[word_len(s) as int] == rest[word_len(rest) as int]);
        }
    }
}

/// The leading run of `n` characters without white space, ended by white space or by the end,
/// is the first word.
pub(crate) proof fn lemma_word_len_is(s: Seq<char>, n: nat)
    requires
        n <= s.len(),
        forall|i: int| 0 <= i < n ==> !white_space(#[trigger] s[i]),
        n < s.len() ==> white_space(s[n as int]),
    ensures
        word_len(s) == n,
    decreases s.len(),
{
    if n > 0 {
        let rest = s.skip(1);
        assert forall|i: int| 0 <= i < n - 1 implies !white_space(#[trigger] rest[i]) by {
            assert(rest[i] == s[i + 1]);
        }
        if n < s.len() {
            assert(rest[n - 1] == s[n as int]);
        }
        lemma_word_len_is(rest, (n - 1) as nat);
    }
}

/// Trimming never lengthens a text.
pub proof fn lemma_trim_start(s: Seq<char>)
    ensures
        trim_start(s).len() <= s.len(),
        trim_start(s).len() > 0 ==> !white_space(trim_start(s)[0]),
    decreases s.len(),
{
    if s.len() > 0 && white_space(s[0]) {
        lemma_trim_start(s.skip(1));
    }
}

/// The words of a text: its longest runs of characters that are not white space.
pub open spec fn words_of(s: Seq<char>) -> Seq<Seq<char>>
    decreases s.len(),
    via words_of_decreases
{
    let t = trim_start(s);
    if t.len() == 0 {
        Seq::empty()
    } else {
        seq![t.take(word_len(t) as int)] + words_of(t.skip(word_len(t) as int))
    }
}

#[via_fn]
proof fn words_of_decreases(s: Seq<char>) {
    lemma_trim_start(s);
    lemma_word_len(trim_start(s));
}

/// The words of a text, in order.
pub fn words(text: &str) -> (result: Vec<String>)
    ensures
        views(result@) == words_of(text@),
{
    let chars = chars_of(text);
    let mut result: Vec<String> = Vec::new();
    let mut at: usize = 0;
    assert(text@.skip(0) == text@);
    assert(views(result@) + words_of(text@) =~= words_of(text@));
    loop
        invariant
            at <= chars@.len(),
            chars@ == text@,
            words_of(text@) == views(result@) + words_of(text@.skip(at as int)),
        decreases chars@.len() - at,
    {
        let ghost s = text@.skip(at as int);
        let mut from: usize = at;
        assert(text@.skip(from as int) == s);
        while from < chars.len() && is_white_space(chars[from])
            invariant
                at <= from <= chars@.len(),
                chars@ == text@,
                trim_start(s) == trim_start(text@.skip(from as int)),
            decreases chars@.len() - from,
        {
            proof {
                assert(text@.skip(from as int).skip(1) == text@.skip(from + 1));
            }
            from += 1;
        }
        let ghost t = text@.skip(from as int);
        assert(trim_start(s) == t);
        if from == chars.len() {
            assert(words_of(s) =~= Seq::empty());
            assert(views(result@) =~= words_of(text@));
            return result;
        }
        let mut to: usize = from;
        while to < chars.len() && !is_white_space(chars[to])
            invariant
                from <= to <= chars@.len(),
                chars@ == text@,
                t == text@.skip(from as int),
                forall|i: int| 0 <= i < to - from ==> !white_space(#[trigger] t[i]),
            decreases chars@.len() - to,
        {
            assert(t[to - from] == text@[to as int]);
            to += 1;
        }
        proof {
            if to < chars@.len() {
                assert(t[to - from] == text@[to as int]);
            }
            lemma_word_len_is(t, (to - from) as nat);
            assert(text@.subrange(from as int, to as int) == t.take(to - from));
            assert(t.skip(to - from) == text@.skip(to as int));
            assert(!white_space(t[0]));
        }
        let ghost before = result@;
        let word = text_between(&chars, from, to);
        result.push(word);
        proof {
            assert(views(result@) == views(before).push(word@));
            assert(words_of(s) == seq![word@] + words_of(text@.skip(to as int)));
            assert(views(before) + words_of(s) =~= views(result@) + words_of(text@.skip(to as int)));
        }
        at = to;
    }
}

/// `parts` with `separator` between each two of them.
pub open spec fn joined(parts: Seq<Seq<char>>, separator: Seq<char>) -> Seq<char>
    decreases parts.len(),
{
    if parts.len() == 0 {
        Seq::empty()
    } else if parts.len() == 1 {
        parts[0]
    } else {
        joined(parts.drop_last(), separator) + separator + parts.last()
    }
}

/// The texts of `parts[from..]` with `separator` between each two of them.
pub fn join_from(parts: &Vec<String>, from: usize, separator: &str) -> (result: String)
    requires
        from <= parts@.len(),
    ensures
        result@ == joined(views(parts@.skip(from as int)), separator@),
{
    let mut result = String::new();
    let mut i: usize = from;
    assert(views(parts@.subrange(from as int, from as int)) =~= Seq::empty());
    while i < parts.len()
        invariant
            from <= i <= parts@.len(),
            result@ == joined(views(parts@.subrange(from as int, i as int)), separator@),
        decreases parts@.len() - i,
    {
        let ghost done = views(parts@.subrange(from as int, i as int));
        let ghost more = views(parts@.subrange(from as int, i + 1));
        proof {
            assert(more.drop_last() =~= done);
            assert(more.last() == parts@[i as int]@);
        }
        if i > from {
            result.append(separator);
        }
        result.append(parts[i].as_str());
        proof {
            if i == from {
                assert(result@ =~= more[0]);
            }
        }
        i += 1;
    }
    assert(parts@.subrange(from as int, i as int) =~= parts@.skip(from as int));
    result
}

/// A text with two spaces behind each line break.
pub open spec fn indented(s: Seq<char>) -> Seq<char>
    decreases s.len(),
{
    if s.len() == 0 {
        Seq::empty()
    } else if s.last() == '\n' {
        indented(s.drop_last()) + seq!['\n', ' ', ' ']
    } else {
        indented(s.drop_last()).push(s.last())
    }
}

/// Indents all lines of a text but the first.
pub fn indent(text: &str) -> (result: String)
    ensures
        result@ == indented(text@),
{
    let mut result = String::new();
    assert(text@.take(0) =~= Seq::<char>::empty());
    for c in it: text.chars()
        invariant
            it.seq() == text@,
            result@ == indented(text@.take(it.index())),
    {
        assert(text@.take(it.index() + 1).drop_last() =~= text@.take(it.index()));
        result.push(c);
        if c == '\n' {
            result.push(' ');
            result.push(' ');
        }
        assert(result@ =~= indented(text@.take(it.index() + 1)));
    }
    assert(text@.take(text@.len() as int) =~= text@);
    result
}

/// The digit for `d` in radix sixteen or less.
pub open spec fn digit_char(d: int) -> char {
    if d < 10 {
        (48 + d) as char
    } else {
        (87 + d) as char
    }
}

/// `n` written in the given radix, without leading zeros.
pub open spec fn digits(n: nat, radix: nat) -> Seq<char>
    decreases n,
{
    if radix < 2 || n < radix {
        seq![digit_char(n as int)]
    } else {
        proof {
            assert(n / radix < n) by (nonlinear_arith)
                requires
                    2 <= radix <= n,
            ;
        }
        digits(n / radix, radix).push(digit_char((n % radix) as int))
    }
}

/// `n` in decimal.
pub open spec fn decimal(n: nat) -> Seq<char> {
    digits(n, 10)
}

/// `n` in hexadecimal, with its prefix.
pub open spec fn hex(n: nat) -> Seq<char> {
    "0x"@ + digits(n, 16)
}

/// `n` in hexadecimal with at least eight digits, without a prefix.
pub open spec fn hex8_plain(n: nat) -> Seq<char> {
    padded(digits(n, 16), 8)
}

/// `n` in hexadecimal with at least eight digits, with its prefix.
pub open spec fn hex8(n: nat) -> Seq<char> {
    "0x"@ + hex8_plain(n)
}

/// `s` with zeros in front, up to `width` characters.
pub open spec fn padded(s: Seq<char>, width: nat) -> Seq<char> {
    if s.len() < width {
        Seq::new((width - s.len()) as nat, |i: int| '0') + s
    } else {
        s
    }
}

/// The digit for `d`.
fn digit_of(d: u8) -> (c: char)
    requires
        d < 16,
    ensures
        c == digit_char(d as int),
{
    if d < 10 {
        (48 + d) as char
    } else {
        (87 + d) as char
    }
}

/// `n` written in the given radix, without leading zeros.
pub fn digits_text(n: u128, radix: u128) -> (text: String)
    requires
        2 <= radix <= 16,
    ensures
        text@ == digits(n as nat, radix as nat),
    decreases n,
{
    if n < radix {
        let mut text = String::new();
        text.push(digit_of(n as u8));
        assert(text@ =~= seq![digit_char(n as int)]);
        text
    } else {
        assert(n / radix < n && n % radix < radix) by (nonlinear_arith)
            requires
                2 <= radix <= n,
        ;
        let mut text = digits_text(n / radix, radix);
        text.push(digit_of((n % radix) as u8));
        text
    }
}

/// `n` in decimal.
pub fn decimal_text(n: u64) -> (text: String)
    ensures
        text@ == decimal(n as nat),
{
    digits_text(n as u128, 10)
}

/// `n` in hexadecimal, with its prefix.
pub fn hex_text(n: u64) -> (text: String)
    ensures
        text@ == hex(n as nat),
{
    cat("0x", &digits_text(n as u128, 16))
}

/// A text with zeros in front, up to `width` characters.
fn pad_text(text: String, width: usize) -> (result: String)
    ensures
        result@ == padded(text@, width as nat),
{
    let have: usize = text.as_str().unicode_len();
    if have >= width {
        return text;
    }
    let mut zeros = String::new();
    let mut i: usize = 0;
    while i < width - have
        invariant
            have < width,
            i <= width - have,
            zeros@ == Seq::new(i as nat, |k: int| '0'),
        decreases width - have - i,
    {
        zeros.push('0');
        assert(Seq::new(i as nat, |k: int| '0').push('0') =~= Seq::new((i + 1) as nat, |k: int| '0'));
        i += 1;
    }
    zeros.append(&text);
    zeros
}

/// `n` in hexadecimal with at least eight digits, without a prefix.
pub fn hex8_plain_text(n: u64) -> (text: String)
    ensures
        text@ == hex8_plain(n as nat),
{
    pad_text(digits_text(n as u128, 16), 8)
}

/// `n` in hexadecimal with at least eight digits, with its prefix.
pub fn hex8_text(n: u64) -> (text: String)
    ensures
        text@ == hex8(n as nat),
{
    cat("0x", &hex8_plain_text(n))
}

/// A byte in hexadecimal with two digits, without a prefix.
pub fn hex2_text(n: u8) -> (text: String)
    ensures
        text@ == padded(digits(n as nat, 16), 2),
{
    pad_text(digits_text(n as u128, 16), 2)
}

/// Letters from `A` to `Z` become those from `a` to `z`, and all else stays as it is, place by place.
pub proof fn law_lower_case_is_ascii(s: Seq<char>, i: int)
    requires
        0 <= i < s.len(),
    ensures
        lowered(s).len() == s.len(),
        if 'A' <= s[i] && s[i] <= 'Z' {
            lowered(s)[i] as int == s[i] as int + 32
        } else {
            lowered(s)[i] == s[i]
        },
{
}

/// Each line break is followed by two spaces, and all else stays as it is: two texts with a line
/// break between them are indented as each is, with the spaces behind the line break.
pub proof fn law_lines_are_indented(a: Seq<char>, b: Seq<char>)
    ensures
        indented(a + "\n"@ + b) == indented(a) + "\n  "@ + indented(b),
        !a.contains('\n') ==> indented(a) == a,
    decreases a.len() + b.len(),
{
    reveal_strlit("\n");
    reveal_strlit("\n  ");
    let all = a + "\n"@ + b;
    if b.len() == 0 {
        assert(all.drop_last() =~= a);
        assert(indented(all) =~= indented(a) + "\n  "@ + indented(b));
    } else {
        let front = b.drop_last();
        law_lines_are_indented(a, front);
        assert(all.drop_last() =~= a + "\n"@ + front);
        assert(all.last() == b.last());
        assert(indented(all) =~= indented(a) + "\n  "@ + indented(b));
    }
    if !a.contains('\n') && a.len() > 0 {
        let front = a.drop_last();
        assert(a.contains(a[a.len() - 1]));
        assert(!front.contains('\n')) by {
            if front.contains('\n') {
                let k = front.index_of('\n');
                assert(a[k] == '\n');
            }
        }
        lemma_plain_is_not_indented(front);
        assert(indented(a) =~= a);
    }
}

/// A text without line breaks is not indented.
proof fn lemma_plain_is_not_indented(s: Seq<char>)
    requires
        !s.contains('\n'),
    ensures
        indented(s) == s,
    decreases s.len(),
{
    if s.len() > 0 {
        let front = s.drop_last();
        assert(s.contains(s[s.len() - 1]));
        assert(!front.contains('\n')) by {
            if front.contains('\n') {
                let k = front.index_of('\n');
                assert(s[k] == '\n');
            }
        }
        lemma_plain_is_not_indented(front);
        assert(indented(s) =~= s);
    } else {
        assert(indented(s) =~= s);
    }
}

/// Two lists that are put together are joined as each is, with the separator between them.
pub proof fn law_lists_are_joined(a: Seq<Seq<char>>, b: Seq<Seq<char>>, separator: Seq<char>)
    requires
        a.len() > 0,
        b.len() > 0,
    ensures
        joined(a + b, separator) == joined(a, separator) + separator + joined(b, separator),
        joined(seq![a[0]], separator) == a[0],
    decreases b.len(),
{
    let all = a + b;
    assert(all.last() == b.last());
    if b.len() == 1 {
        assert(all.drop_last() =~= a);
        assert(joined(b, separator) == b[0]);
    } else {
        let front = b.drop_last();
        law_lists_are_joined(a, front, separator);
        assert(all.drop_last() =~= a + front);
        assert(joined(all, separator) =~= joined(a, separator) + separator + joined(b, separator));
    }
}

} // verus!
