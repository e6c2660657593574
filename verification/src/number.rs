//! Numbers as the command line and OpenOCD write them.
use crate::error;
use crate::error::{AppError, AppResult, Failure};
use crate::target;
use crate::target::{normalize_flash_addr, FLASH_BASE};
use crate::text;
use crate::text::{cat, chars_of, to_lower, trim};
use vstd::prelude::*;

verus! {

/// The value of a digit, in any radix up to thirty-six.
pub open spec fn digit_value(c: char) -> Option<nat> {
    if '0' <= c <= '9' {
        Some((c as int - 48) as nat)
    } else if 'a' <= c <= 'z' {
        Some((c as int - 87) as nat)
    } else if 'A' <= c <= 'Z' {
        Some((c as int - 55) as nat)
    } else {
        None
    }
}

/// Whether `c` is a digit in the given radix.
pub open spec fn is_digit(c: char, radix: nat) -> bool {
    digit_value(c) is Some && digit_value(c)->0 < radix
}

/// Whether all of `s` is digits in the given radix.
pub open spec fn all_digits(s: Seq<char>, radix: nat) -> bool {
    forall|i: int| 0 <= i < s.len() ==> is_digit(#[trigger] s[i], radix)
}

/// The number that the digits `s` stand for.
pub open spec fn digits_value(s: Seq<char>, radix: nat) -> nat
    decreases s.len(),
{
    if s.len() == 0 {
        0
    } else {
        digits_value(s.drop_last(), radix) * radix + digit_value(s.last())->0
    }
}

/// `s` without one leading plus sign.
pub open spec fn unsigned_body(s: Seq<char>) -> Seq<char> {
    if s.len() > 1 && s[0] == '+' {
        s.skip(1)
    } else {
        s
    }
}

/// The number that `s` stands for: digits, perhaps behind a plus sign, worth at most `max`.
pub open spec fn unsigned(s: Seq<char>, radix: nat, max: nat) -> Option<nat> {
    let body = unsigned_body(s);
    if body.len() > 0 && all_digits(body, radix) && digits_value(body, radix) <= max {
        Some(digits_value(body, radix))
    } else {
        None
    }
}

/// The value of a digit, if `c` is one in the given radix.
fn digit_in(c: char, radix: u64) -> (result: Option<u64>)
    requires
        2 <= radix <= 36,
    ensures
        match result {
            Some(d) => is_digit(c, radix as nat) && d == digit_value(c)->0,
            None => !is_digit(c, radix as nat),
        },
{
    let value: u64 = if '0' <= c && c <= '9' {
        c as u64 - 48
    } else if 'a' <= c && c <= 'z' {
        c as u64 - 87
    } else if 'A' <= c && c <= 'Z' {
        c as u64 - 55
    } else {
        return None;
    };
    if value < radix {
        Some(value)
    } else {
        None
    }
}

/// More digits never make a number smaller.
proof fn lemma_prefix_value(s: Seq<char>, n: int, radix: nat)
    requires
        0 <= n <= s.len(),
        radix >= 1,
    ensures
        digits_value(s.take(n), radix) <= digits_value(s, radix),
    decreases s.len() - n,
{
    if n < s.len() {
        lemma_prefix_value(s, n + 1, radix);
        let more = s.take(n + 1);
        assert(more.drop_last() =~= s.take(n));
        let v = digits_value(s.take(n), radix);
        assert(v <= v * radix) by (nonlinear_arith)
            requires
                radix >= 1,
        ;
    } else {
        assert(s.take(n) =~= s);
    }
}

/// The number that `chars[from..]` stands for, if it is a number worth at most `max`.
pub fn parse_unsigned(chars: &[char], from: usize, radix: u64, max: u64) -> (result: Option<u64>)
    requires
        from <= chars@.len(),
        2 <= radix <= 36,
    ensures
        match result {
            Some(n) => unsigned(chars@.skip(from as int), radix as nat, max as nat) == Some(
                n as nat,
            ),
            None => unsigned(chars@.skip(from as int), radix as nat, max as nat) is None,
        },
{
    let ghost s = chars@.skip(from as int);
    let len: usize = chars.len();
    let start: usize = if len - from > 1 && chars[from] == '+' {
        from + 1
    } else {
        from
    };
    let ghost body = unsigned_body(s);
    proof {
        if start > from {
            assert(s[0] == chars@[from as int]);
        }
        assert(body =~= chars@.skip(start as int));
    }
    if start == len {
        return None;
    }
    let mut value: u64 = 0;
    let mut i: usize = start;
    while i < len
        invariant
            start <= i <= len == chars@.len(),
            2 <= radix <= 36,
            body == chars@.skip(start as int),
            body == unsigned_body(s),
            s == chars@.skip(from as int),
            forall|k: int| 0 <= k < i - start ==> is_digit(#[trigger] body[k], radix as nat),
            value == digits_value(body.take(i - start), radix as nat),
            value <= max,
        decreases len - i,
    {
        let ghost k = i - start;
        proof {
            assert(body[k] == chars@[i as int]);
            assert(body.take(k + 1).drop_last() =~= body.take(k));
            assert(body.take(k + 1).last() == body[k]);
            lemma_prefix_value(body, k + 1, radix as nat);
        }
        let d: u64 = match digit_in(chars[i], radix) {
            Some(d) => d,
            None => return None,
        };
        assert(value * radix + d <= u64::MAX * 36 + 36) by (nonlinear_arith)
            requires
                value <= u64::MAX,
                radix <= 36,
                d <= 36,
        ;
        let next: u128 = value as u128 * radix as u128 + d as u128;
        if next > max as u128 {
            return None;
        }
        value = next as u64;
        i += 1;
    }
    assert(body.take(i - start) =~= body);
    Some(value)
}

/// The text of a number in the form that its digits are taken from: trimmed, in lower case and
/// without underscores.
pub open spec fn plain_number(text: Seq<char>) -> Seq<char> {
    text::lowered(text::trimmed(text)).filter(|c: char| c != '_')
}

/// What a final letter multiplies a number by.
pub open spec fn multiplier(last: char) -> nat {
    if last == 'k' {
        1024
    } else if last == 'm' {
        1048576
    } else if last == 'g' {
        1073741824
    } else {
        1
    }
}

/// The radix and the digits of a number without its multiplier.
pub open spec fn radix_and_digits(body: Seq<char>) -> (nat, Seq<char>) {
    if body.len() > 0 && body.last() == 'h' {
        (16, body.drop_last())
    } else if body.len() > 1 && body[0] == '0' && body[1] == 'x' {
        (16, body.skip(2))
    } else if body.len() > 1 && body[0] == '0' && body[1] == 'b' {
        (2, body.skip(2))
    } else if body.len() > 1 && body[0] == '0' && body[1] == 'o' {
        (8, body.skip(2))
    } else {
        (10, body)
    }
}

/// The number that `text` stands for, or why it is none.
pub open spec fn number(text: Seq<char>) -> Result<nat, Seq<char>> {
    let value = plain_number(text);
    if value.len() == 0 {
        Err("number is empty"@)
    } else {
        let factor = multiplier(value.last());
        let body = if factor != 1 {
            value.drop_last()
        } else {
            value
        };
        let (radix, digits) = radix_and_digits(body);
        match unsigned(digits, radix, u64::MAX as nat) {
            None => Err("invalid number: "@ + text),
            Some(n) => if n * factor <= u64::MAX {
                Ok(n * factor)
            } else {
                Err("number is too large: "@ + text)
            },
        }
    }
}

/// Drops the underscores of a text.
fn without_underscores(text: &str) -> (chars: Vec<char>)
    ensures
        chars@ == text@.filter(|c: char| c != '_'),
{
    let all = chars_of(text);
    let mut chars: Vec<char> = Vec::new();
    let mut i: usize = 0;
    let ghost keep = |c: char| c != '_';
    assert(text@.take(0).filter(keep) =~= Seq::empty()) by {
        reveal(Seq::filter);
    }
    while i < all.len()
        invariant
            i <= all@.len(),
            all@ == text@,
            keep == (|c: char| c != '_'),
            chars@ == text@.take(i as int).filter(keep),
        decreases all@.len() - i,
    {
        proof {
            reveal(Seq::filter);
            assert(text@.take(i + 1).drop_last() =~= text@.take(i as int));
            assert(text@.take(i + 1).last() == text@[i as int]);
        }
        if all[i] != '_' {
            chars.push(all[i]);
        }
        i += 1;
    }
    assert(text@.take(i as int) =~= text@);
    chars
}

/// The number that `text` stands for.
///
/// Decimal, or hexadecimal (`0x10` or `10h`), binary (`0b`) or octal (`0o`); a final `k`, `m` or
/// `g` multiplies by a power of 1024; underscores and case do not matter.
pub fn parse_number(text: &str) -> (result: Result<u64, String>)
    ensures
        match result {
            Ok(n) => number(text@) == Ok::<nat, Seq<char>>(n as nat),
            Err(message) => number(text@) == Err::<nat, Seq<char>>(message@),
        },
{
    let mut value: Vec<char> = without_underscores(&to_lower(&trim(text)));
    if value.len() == 0 {
        return Err("number is empty".to_owned());
    }
    let last: char = value[value.len() - 1];
    let factor: u64 = if last == 'k' {
        1024
    } else if last == 'm' {
        1048576
    } else if last == 'g' {
        1073741824
    } else {
        1
    };
    if factor != 1 {
        value.pop();
    }
    let ghost body = value@;
    let len: usize = value.len();
    let mut radix: u64 = 10;
    let mut from: usize = 0;
    if len > 0 && value[len - 1] == 'h' {
        value.pop();
        radix = 16;
    } else if len > 1 && value[0] == '0' && value[1] == 'x' {
        radix = 16;
        from = 2;
    } else if len > 1 && value[0] == '0' && value[1] == 'b' {
        radix = 2;
        from = 2;
    } else if len > 1 && value[0] == '0' && value[1] == 'o' {
        radix = 8;
        from = 2;
    }
    assert(value@.skip(from as int) =~= radix_and_digits(body).1);
    match parse_unsigned(&value, from, radix, u64::MAX) {
        None => Err(cat("invalid number: ", text)),
        Some(n) => {
            assert(n * factor <= u64::MAX * 1073741824) by (nonlinear_arith)
                requires
                    n <= u64::MAX,
                    factor <= 1073741824,
            ;
            let product: u128 = n as u128 * factor as u128;
            if product <= u64::MAX as u128 {
                Ok(product as u64)
            } else {
                Err(cat("number is too large: ", text))
            }
        },
    }
}

/// The address that `text` stands for, taken as it is.
pub open spec fn absolute_address(text: Seq<char>) -> Result<u32, Failure> {
    match number(text) {
        Err(message) => Err(Failure::Usage(message)),
        Ok(n) => if n <= u32::MAX {
            Ok(n as u32)
        } else {
            Err(Failure::Usage("address is too large"@))
        },
    }
}

/// The address that `text` stands for, taken as it is.
pub fn parse_absolute_addr(text: &str) -> (result: AppResult<u32>)
    ensures
        error::agrees(result, absolute_address(text@)),
{
    match parse_number(text) {
        Err(message) => Err(AppError::Usage(message)),
        Ok(n) => if n <= u32::MAX as u64 {
            Ok(n as u32)
        } else {
            Err(AppError::Usage("address is too large".to_owned()))
        },
    }
}

/// The flash address that `text` stands for. An offset counts from the start of flash.
pub open spec fn flash_address_of(text: Seq<char>) -> Result<u32, Failure> {
    match number(text) {
        Err(message) => Err(Failure::Usage(message)),
        Ok(n) => target::flash_address(n),
    }
}

/// The flash address that `text` stands for. An offset counts from the start of flash.
pub fn parse_flash_addr(text: &str) -> (result: AppResult<u32>)
    ensures
        error::agrees(result, flash_address_of(text@)),
{
    match parse_number(text) {
        Err(message) => Err(AppError::Usage(message)),
        Ok(n) => normalize_flash_addr(n),
    }
}

/// The positive count that `text` stands for.
pub open spec fn positive_count(text: Seq<char>, name: Seq<char>) -> Result<usize, Failure> {
    match number(text) {
        Err(message) => Err(Failure::Usage(message)),
        Ok(n) => if n == 0 {
            Err(Failure::Usage(name + " must be positive"@))
        } else if n <= usize::MAX {
            Ok(n as usize)
        } else {
            Err(Failure::Usage(name + " is too large"@))
        },
    }
}

/// The positive count that `text` stands for; `name` says what is counted.
pub fn parse_positive_usize(text: &str, name: &str) -> (result: AppResult<usize>)
    ensures
        error::agrees(result, positive_count(text@, name@)),
{
    match parse_number(text) {
        Err(message) => Err(AppError::Usage(message)),
        Ok(n) => if n == 0 {
            Err(AppError::Usage(cat(name, " must be positive")))
        } else if n <= usize::MAX as u64 {
            Ok(n as usize)
        } else {
            Err(AppError::Usage(cat(name, " is too large")))
        },
    }
}

/// The TCP port that `text` stands for: a decimal number from 1 to 65535.
pub fn parse_port(text: &str) -> (result: Result<u16, String>)
    ensures
        match unsigned(text@, 10, u16::MAX as nat) {
            Some(n) if n > 0 => result == Ok::<u16, String>(n as u16),
            _ => result is Err && result->Err_0@ == "port must be between 1 and 65535"@,
        },
{
    let chars = chars_of(text);
    assert(chars@.skip(0) =~= text@);
    match parse_unsigned(&chars, 0, 10, u16::MAX as u64) {
        Some(n) if n > 0 => Ok(n as u16),
        _ => Err("port must be between 1 and 65535".to_owned()),
    }
}

/// The digits of a number are lower-case hexadecimal digits, and stand for it.
pub proof fn lemma_digits(n: nat, radix: nat)
    requires
        2 <= radix <= 16,
    ensures
        text::digits(n, radix).len() > 0,
        all_digits(text::digits(n, radix), radix),
        forall|i: int|
            0 <= i < text::digits(n, radix).len() ==> {
                let c = #[trigger] text::digits(n, radix)[i];
                '0' <= c <= '9' || 'a' <= c <= 'f'
            },
        digits_value(text::digits(n, radix), radix) == n,
    decreases n,
{
    let s = text::digits(n, radix);
    if n < radix {
        assert(s.drop_last() =~= Seq::empty());
        assert(digits_value(s.drop_last(), radix) == 0);
        assert(0 * radix == 0);
    } else {
        assert(n / radix < n && n % radix < radix && (n / radix) * radix + n % radix == n)
            by (nonlinear_arith)
            requires
                2 <= radix <= n,
        ;
        lemma_digits(n / radix, radix);
        assert(s.drop_last() =~= text::digits(n / radix, radix));
        assert forall|i: int| 0 <= i < s.len() implies is_digit(#[trigger] s[i], radix) by {
            if i < s.len() - 1 {
                assert(s[i] == text::digits(n / radix, radix)[i]);
            }
        }
        assert forall|i: int| 0 <= i < s.len() implies {
            let c = #[trigger] s[i];
            '0' <= c <= '9' || 'a' <= c <= 'f'
        } by {
            if i < s.len() - 1 {
                assert(s[i] == text::digits(n / radix, radix)[i]);
            }
        }
    }
}

/// Leading zeros do not change a number.
proof fn lemma_padded_value(s: Seq<char>, width: nat, radix: nat)
    requires
        radix >= 2,
    ensures
        digits_value(text::padded(s, width), radix) == digits_value(s, radix),
    decreases s.len() + width,
{
    if s.len() < width {
        let p = text::padded(s, width);
        if s.len() == 0 {
            let shorter = text::padded(s, (width - 1) as nat);
            assert(p.drop_last() =~= shorter);
            lemma_padded_value(s, (width - 1) as nat, radix);
            assert(0 * radix == 0);
        } else {
            assert(p.drop_last() =~= text::padded(s.drop_last(), (width - 1) as nat));
            lemma_padded_value(s.drop_last(), (width - 1) as nat, radix);
        }
    }
}

/// A filter that keeps every element changes nothing.
proof fn lemma_filter_all(s: Seq<char>, keep: spec_fn(char) -> bool)
    requires
        forall|i: int| 0 <= i < s.len() ==> keep(#[trigger] s[i]),
    ensures
        s.filter(keep) == s,
    decreases s.len(),
{
    reveal(Seq::filter);
    if s.len() > 0 {
        lemma_filter_all(s.drop_last(), keep);
        assert(s.drop_last().push(s.last()) =~= s);
    } else {
        assert(s.filter(keep) =~= s);
    }
}

/// A prefixed run of lower-case hexadecimal digits stands for the value of the digits.
proof fn lemma_prefixed_hex(d: Seq<char>)
    requires
        d.len() > 0,
        all_digits(d, 16),
        forall|i: int|
            0 <= i < d.len() ==> {
                let c = #[trigger] d[i];
                '0' <= c <= '9' || 'a' <= c <= 'f'
            },
        digits_value(d, 16) <= u64::MAX,
    ensures
        number("0x"@ + d) == Ok::<nat, Seq<char>>(digits_value(d, 16)),
{
    reveal_strlit("0x");
    let s = "0x"@ + d;
    assert(s[0] == '0' && s[1] == 'x');
    assert(s.last() == d.last());
    assert(text::trim_start(s) == s);
    assert(text::trim_end(s) == s);
    assert forall|i: int| 0 <= i < s.len() implies #[trigger] text::lower_char(s[i]) == s[i] && s[i]
        != '_' by {
        if i >= 2 {
            assert(s[i] == d[i - 2]);
        }
    }
    assert(text::lowered(s) =~= s);
    let keep = |c: char| c != '_';
    assert forall|i: int| 0 <= i < s.len() implies keep(#[trigger] s[i]) by {
        assert(text::lower_char(s[i]) == s[i]);
    }
    lemma_filter_all(s, keep);
    assert(plain_number(s) == s);
    assert(s.skip(2) =~= d);
    assert(unsigned_body(d) == d);
    assert(digits_value(d, 16) * 1 == digits_value(d, 16));
}

/// A number that is printed in hexadecimal, with or without leading zeros, is read back as the
/// same number.
pub proof fn law_printed_hex_is_read_back(n: u64)
    ensures
        number(text::hex(n as nat)) == Ok::<nat, Seq<char>>(n as nat),
        number(text::hex8(n as nat)) == Ok::<nat, Seq<char>>(n as nat),
{
    lemma_digits(n as nat, 16);
    let d = text::digits(n as nat, 16);
    lemma_prefixed_hex(d);
    let p = text::padded(d, 8);
    lemma_padded_value(d, 8, 16);
    assert forall|i: int| 0 <= i < p.len() implies is_digit(#[trigger] p[i], 16) && ('0' <= p[i]
        <= '9' || 'a' <= p[i] <= 'f') by {
        if p.len() > d.len() && i >= p.len() - d.len() {
            assert(p[i] == d[i - (p.len() - d.len())]);
        }
    }
    lemma_prefixed_hex(p);
}

/// An offset and the address it stands for are the same flash address.
pub proof fn law_offset_and_address_agree(offset: nat)
    requires
        offset < FLASH_BASE,
    ensures
        target::flash_address(offset) == target::flash_address(offset + FLASH_BASE as nat),
{
}

/// A flash address stands for itself.
pub proof fn law_flash_address_is_stable(value: nat)
    ensures
        target::flash_address(value) matches Ok(address) ==> address >= FLASH_BASE && target::flash_address(
            address as nat,
        ) == Ok::<u32, Failure>(address),
{
}

/// Whether two readings of a number come to the same: one value for both, or none for either.
pub open spec fn same_number(a: Result<nat, Seq<char>>, b: Result<nat, Seq<char>>) -> bool {
    (a is Ok <==> b is Ok) && (a is Ok ==> a == b)
}

/// `s` without its underscores.
pub open spec fn letters_of(s: Seq<char>) -> Seq<char> {
    s.filter(|c: char| c != '_')
}

/// Whether all of `s` is white space.
pub open spec fn all_white(s: Seq<char>) -> bool {
    forall|i: int| 0 <= i < s.len() ==> text::white_space(#[trigger] s[i])
}

/// What is left of a text that is trimmed at its start.
proof fn lemma_trim_start_shortens(s: Seq<char>)
    ensures
        text::trim_start(s).len() <= s.len(),
        text::trim_start(s).len() == s.len() ==> text::trim_start(s) == s,
    decreases s.len(),
{
    if s.len() > 0 && text::white_space(s[0]) {
        lemma_trim_start_shortens(s.skip(1));
    }
}

/// What is left of a text that is trimmed at its end.
proof fn lemma_trim_end_shortens(s: Seq<char>)
    ensures
        text::trim_end(s).len() <= s.len(),
    decreases s.len(),
{
    if s.len() > 0 && text::white_space(s.last()) {
        lemma_trim_end_shortens(s.drop_last());
    }
}

/// A trimmed text has no white space at either end.
proof fn lemma_trimmed_ends(s: Seq<char>)
    requires
        text::trimmed(s) == s,
        s.len() > 0,
    ensures
        !text::white_space(s[0]),
        !text::white_space(s.last()),
{
    lemma_trim_start_shortens(s);
    lemma_trim_end_shortens(text::trim_start(s));
    if text::white_space(s[0]) {
        lemma_trim_start_shortens(s.skip(1));
    }
    if text::white_space(s.last()) {
        lemma_trim_end_shortens(s.drop_last());
    }
}

/// White space at the start is trimmed away.
pub(crate) proof fn lemma_trim_start_white(before: Seq<char>, s: Seq<char>)
    requires
        all_white(before),
    ensures
        text::trim_start(before + s) == text::trim_start(s),
    decreases before.len(),
{
    let all = before + s;
    if before.len() > 0 {
        let rest = before.skip(1);
        assert forall|i: int| 0 <= i < rest.len() implies text::white_space(#[trigger] rest[i]) by {
            assert(rest[i] == before[i + 1]);
        }
        lemma_trim_start_white(rest, s);
        assert(all[0] == before[0]);
        assert(all.skip(1) =~= rest + s);
    } else {
        assert(all =~= s);
    }
}

/// White space at the end is trimmed away at the end.
proof fn lemma_trim_end_white(s: Seq<char>, after: Seq<char>)
    requires
        all_white(after),
    ensures
        text::trim_end(s + after) == text::trim_end(s),
    decreases after.len(),
{
    let all = s + after;
    if after.len() > 0 {
        let rest = after.drop_last();
        assert forall|i: int| 0 <= i < rest.len() implies text::white_space(#[trigger] rest[i]) by {
            assert(rest[i] == after[i]);
        }
        lemma_trim_end_white(s, rest);
        assert(all.last() == after.last());
        assert(all.drop_last() =~= s + rest);
    } else {
        assert(all =~= s);
    }
}

/// White space at the end is trimmed away.
pub(crate) proof fn lemma_trimmed_white(s: Seq<char>, after: Seq<char>)
    requires
        all_white(after),
    ensures
        text::trimmed(s + after) == text::trimmed(s),
    decreases s.len(),
{
    let all = s + after;
    if s.len() == 0 {
        let none = Seq::<char>::empty();
        assert(all =~= after + none);
        lemma_trim_start_white(after, none);
        assert(s =~= none);
    } else {
        assert(all[0] == s[0]);
        if text::white_space(s[0]) {
            lemma_trimmed_white(s.skip(1), after);
            assert(all.skip(1) =~= s.skip(1) + after);
        } else {
            lemma_trim_end_white(s, after);
        }
    }
}

/// Characters of one lower-case form are both white space or neither.
proof fn lemma_lower_char(c: char)
    ensures
        text::white_space(text::lower_char(c)) == text::white_space(c),
        text::lower_char(c) == '_' <==> c == '_',
{
}

/// Trimming does not depend on the case of letters.
proof fn lemma_trim_start_lowered(s: Seq<char>)
    ensures
        text::trim_start(text::lowered(s)) == text::lowered(text::trim_start(s)),
    decreases s.len(),
{
    let lower = text::lowered(s);
    if s.len() > 0 {
        lemma_lower_char(s[0]);
        assert(lower[0] == text::lower_char(s[0]));
        if text::white_space(s[0]) {
            lemma_trim_start_lowered(s.skip(1));
            assert(lower.skip(1) =~= text::lowered(s.skip(1)));
        }
    }
}

/// Trimming does not depend on the case of letters.
proof fn lemma_trim_end_lowered(s: Seq<char>)
    ensures
        text::trim_end(text::lowered(s)) == text::lowered(text::trim_end(s)),
    decreases s.len(),
{
    let lower = text::lowered(s);
    if s.len() > 0 {
        lemma_lower_char(s.last());
        assert(lower.last() == text::lower_char(s.last()));
        if text::white_space(s.last()) {
            lemma_trim_end_lowered(s.drop_last());
            assert(lower.drop_last() =~= text::lowered(s.drop_last()));
        }
    }
}

/// Trimming does not depend on the case of letters.
proof fn lemma_trimmed_lowered(s: Seq<char>)
    ensures
        text::trimmed(text::lowered(s)) == text::lowered(text::trimmed(s)),
{
    lemma_trim_start_lowered(s);
    lemma_trim_end_lowered(text::trim_start(s));
}

/// Underscores can be dropped before or after letters are put in lower case.
proof fn lemma_letters_lowered(s: Seq<char>)
    ensures
        letters_of(text::lowered(s)) == text::lowered(letters_of(s)),
    decreases s.len(),
{
    let lower = text::lowered(s);
    reveal(Seq::filter);
    if s.len() > 0 {
        let front = s.drop_last();
        lemma_letters_lowered(front);
        lemma_lower_char(s.last());
        assert(lower.drop_last() =~= text::lowered(front));
        assert(lower.last() == text::lower_char(s.last()));
        assert(letters_of(lower) =~= text::lowered(letters_of(s)));
    } else {
        assert(letters_of(lower) =~= text::lowered(letters_of(s)));
    }
}

/// A number depends on its letters and digits alone.
proof fn lemma_same_letters(x: Seq<char>, y: Seq<char>)
    requires
        text::lowered(letters_of(text::trimmed(x))) == text::lowered(letters_of(text::trimmed(y))),
    ensures
        same_number(number(x), number(y)),
{
    lemma_letters_lowered(text::trimmed(x));
    lemma_letters_lowered(text::trimmed(y));
    assert(plain_number(x) == plain_number(y));
}

/// A final `k`, `m` or `g`, in either case, multiplies a number by 1024 or by its square or cube.
/// A product that does not fit is an error, and so is what was no number without the letter.
pub proof fn law_suffix_multiplies(text: Seq<char>, suffix: char)
    requires
        text::trimmed(text) == text,
        letters_of(text).len() > 0 ==> multiplier(text::lower_char(letters_of(text).last())) == 1,
        multiplier(text::lower_char(suffix)) != 1,
    ensures
        match number(text) {
            Ok(n) => {
                let product = n * multiplier(text::lower_char(suffix));
                number(text.push(suffix)) == if product <= u64::MAX {
                    Ok::<nat, Seq<char>>(product)
                } else {
                    Err("number is too large: "@ + text.push(suffix))
                }
            },
            Err(_) => number(text.push(suffix)) is Err,
        },
{
    let longer = text.push(suffix);
    let value = plain_number(text);
    let factor = multiplier(text::lower_char(suffix));
    lemma_lower_char(suffix);
    assert(!text::white_space(suffix));
    assert(text::trimmed(longer) == longer) by {
        if text.len() > 0 {
            lemma_trimmed_ends(text);
            assert(longer[0] == text[0]);
        }
        assert(longer.last() == suffix);
    }
    lemma_letters_lowered(text);
    lemma_letters_lowered(longer);
    assert(plain_number(longer) == value.push(text::lower_char(suffix))) by {
        reveal(Seq::filter);
        assert(longer.drop_last() =~= text);
        assert(letters_of(longer) =~= letters_of(text).push(suffix));
        assert(text::lowered(letters_of(longer)) =~= text::lowered(letters_of(text)).push(
            text::lower_char(suffix),
        ));
    }
    assert(plain_number(longer).drop_last() =~= value);
    if value.len() == 0 {
        assert(radix_and_digits(value).1.len() == 0);
    } else {
        assert(value.last() == text::lower_char(letters_of(text).last()));
        let (radix, digits) = radix_and_digits(value);
        if let Some(n) = unsigned(digits, radix, u64::MAX as nat) {
            assert(n * 1 == n);
        }
    }
}

/// White space around a text does not change the number that it stands for.
pub proof fn law_white_space_does_not_matter(before: Seq<char>, text: Seq<char>, after: Seq<char>)
    requires
        all_white(before),
        all_white(after),
    ensures
        same_number(number(before + text + after), number(text)),
{
    assert(before + text + after =~= before + (text + after));
    lemma_trim_start_white(before, text + after);
    lemma_trimmed_white(text, after);
    lemma_same_letters(before + text + after, text);
}

/// The case of letters does not change the number that a text stands for.
pub proof fn law_case_does_not_matter(x: Seq<char>, y: Seq<char>)
    requires
        text::lowered(x) == text::lowered(y),
    ensures
        same_number(number(x), number(y)),
{
    lemma_trimmed_lowered(x);
    lemma_trimmed_lowered(y);
    lemma_letters_lowered(text::trimmed(x));
    lemma_letters_lowered(text::trimmed(y));
    lemma_same_letters(x, y);
}

/// Underscores do not change the number that a text stands for, wherever they stand inside the
/// white space around it: two trimmed texts that differ in underscores alone are the same number.
pub proof fn law_underscores_do_not_matter(x: Seq<char>, y: Seq<char>)
    requires
        text::trimmed(x) == x,
        text::trimmed(y) == y,
        letters_of(x) == letters_of(y),
    ensures
        same_number(number(x), number(y)),
{
    lemma_same_letters(x, y);
}

/// Texts that differ only in the case of letters, in underscores and in the white space around them
/// stand for one number, or for none.
pub proof fn law_way_of_writing_does_not_matter(
    before: Seq<char>,
    x: Seq<char>,
    after: Seq<char>,
    y: Seq<char>,
)
    requires
        all_white(before),
        all_white(after),
        text::trimmed(x) == x,
        text::trimmed(y) == y,
        text::lowered(letters_of(x)) == text::lowered(letters_of(y)),
    ensures
        same_number(number(before + x + after), number(y)),
{
    law_white_space_does_not_matter(before, x, after);
    lemma_same_letters(x, y);
}

/// An underscore can be put anywhere in a trimmed text: the text stays trimmed and stands for the
/// same number.
pub proof fn law_underscore_can_be_put_anywhere(text: Seq<char>, i: int)
    requires
        text::trimmed(text) == text,
        0 <= i <= text.len(),
    ensures
        text::trimmed(text.insert(i, '_')) == text.insert(i, '_'),
        same_number(number(text.insert(i, '_')), number(text)),
{
    let longer = text.insert(i, '_');
    let front = text.take(i);
    let back = text.skip(i);
    let mark = seq!['_'];
    let keep = |c: char| c != '_';
    if text.len() > 0 {
        lemma_trimmed_ends(text);
    }
    assert(text::trimmed(longer) == longer) by {
        assert(!text::white_space('_'));
        assert(longer[0] == if i == 0 {
            '_'
        } else {
            text[0]
        });
        assert(longer.last() == if i == text.len() {
            '_'
        } else {
            text.last()
        });
    }
    assert(text =~= front + back);
    assert(longer =~= front + (mark + back));
    Seq::filter_distributes_over_add(front, back, keep);
    Seq::filter_distributes_over_add(front, mark + back, keep);
    Seq::filter_distributes_over_add(mark, back, keep);
    assert(mark.filter(keep) =~= Seq::empty()) by {
        reveal(Seq::filter);
        assert(Seq::<char>::empty().filter(keep) =~= Seq::empty());
        assert(mark.drop_last() =~= Seq::empty());
    }
    assert(Seq::<char>::empty() + back.filter(keep) =~= back.filter(keep));
    law_underscores_do_not_matter(longer, text);
}

/// A number that is printed in decimal is read back as the same number.
pub proof fn law_printed_decimal_is_read_back(n: u64)
    ensures
        number(text::decimal(n as nat)) == Ok::<nat, Seq<char>>(n as nat),
{
    lemma_digits(n as nat, 10);
    let s = text::digits(n as nat, 10);
    let keep = |c: char| c != '_';
    assert forall|i: int| 0 <= i < s.len() implies '0' <= (#[trigger] s[i]) <= '9' by {
        assert(is_digit(s[i], 10));
    }
    assert forall|i: int| 0 <= i < s.len() implies #[trigger] text::lower_char(s[i]) == s[i] && keep(
        s[i],
    ) by {
        assert('0' <= s[i] <= '9');
    }
    assert(text::trim_start(s) == s) by {
        assert('0' <= s[0] <= '9');
    }
    assert(text::trim_end(s) == s) by {
        assert('0' <= s[s.len() - 1] <= '9');
    }
    assert(text::lowered(s) =~= s);
    assert forall|i: int| 0 <= i < s.len() implies keep(#[trigger] s[i]) by {
        assert(text::lower_char(s[i]) == s[i]);
    }
    lemma_filter_all(s, keep);
    assert(plain_number(s) == s);
    assert('0' <= s[s.len() - 1] <= '9');
    assert('0' <= s[0] <= '9');
    if s.len() > 1 {
        assert('0' <= s[1] <= '9');
    }
    assert(digits_value(s, 10) * 1 == digits_value(s, 10));
}


/// A number is read in the radix that its prefix, or the letter behind it, stands for.
pub proof fn law_prefix_gives_the_radix(n: u64)
    ensures
        number("0x"@ + text::digits(n as nat, 16)) == Ok::<nat, Seq<char>>(n as nat),
        number("0o"@ + text::digits(n as nat, 8)) == Ok::<nat, Seq<char>>(n as nat),
        number("0b"@ + text::digits(n as nat, 2)) == Ok::<nat, Seq<char>>(n as nat),
        number(text::digits(n as nat, 16).push('h')) == Ok::<nat, Seq<char>>(n as nat),
        number(text::digits(n as nat, 10)) == Ok::<nat, Seq<char>>(n as nat),
{
    reveal_strlit("0x");
    reveal_strlit("0o");
    reveal_strlit("0b");
    law_printed_hex_is_read_back(n);
    law_printed_decimal_is_read_back(n);
    lemma_digits(n as nat, 8);
    lemma_digits(n as nat, 2);
    lemma_digits(n as nat, 16);
    let o = text::digits(n as nat, 8);
    let b = text::digits(n as nat, 2);
    let h = text::digits(n as nat, 16);
    let so = "0o"@ + o;
    let sb = "0b"@ + b;
    let sh = h.push('h');
    assert forall|i: int| 0 <= i < so.len() implies is_plain(#[trigger] so[i]) by {
        if i >= 2 {
            assert(so[i] == o[i - 2]);
        }
    }
    assert forall|i: int| 0 <= i < sb.len() implies is_plain(#[trigger] sb[i]) by {
        if i >= 2 {
            assert(sb[i] == b[i - 2]);
        }
    }
    assert forall|i: int| 0 <= i < sh.len() implies is_plain(#[trigger] sh[i]) by {
        if i < h.len() {
            assert(sh[i] == h[i]);
        }
    }
    lemma_plain(so);
    lemma_plain(sb);
    lemma_plain(sh);
    assert(so.last() == o.last() && is_digit(o.last(), 8));
    assert(sb.last() == b.last() && is_digit(b.last(), 2));
    assert(so.skip(2) =~= o);
    assert(sb.skip(2) =~= b);
    assert(sh.drop_last() =~= h);
    assert(unsigned_body(o) == o) by {
        assert(is_digit(o[0], 8));
    }
    assert(unsigned_body(b) == b) by {
        assert(is_digit(b[0], 2));
    }
    assert(unsigned_body(h) == h) by {
        assert(is_digit(h[0], 16));
    }
    assert(multiplier(so.last()) == 1);
    assert(multiplier(sb.last()) == 1);
    assert(multiplier(sh.last()) == 1);
    assert(n as nat * 1 == n as nat);
}

/// Whether a character stays as it is when a number is read.
spec fn is_plain(c: char) -> bool {
    '0' <= c <= '9' || 'a' <= c <= 'z'
}

/// A text of such characters is taken as it is.
proof fn lemma_plain(s: Seq<char>)
    requires
        s.len() > 0,
        forall|i: int| 0 <= i < s.len() ==> is_plain(#[trigger] s[i]),
    ensures
        plain_number(s) == s,
{
    assert(is_plain(s[0]));
    assert(is_plain(s[s.len() - 1]));
    assert(text::trim_start(s) == s);
    assert(text::trim_end(s) == s);
    assert forall|i: int| 0 <= i < s.len() implies #[trigger] text::lower_char(s[i]) == s[i] && s[i]
        != '_' by {
        assert(is_plain(s[i]));
    }
    assert(text::lowered(s) =~= s);
    let keep = |c: char| c != '_';
    assert forall|i: int| 0 <= i < s.len() implies keep(#[trigger] s[i]) by {
        assert(text::lower_char(s[i]) == s[i]);
    }
    lemma_filter_all(s, keep);
}

} // verus!
