//! Texts.
use jog::config::{config_directories, ConfigPlace};
use jog::dump::hexdump;
use jog::text;

#[test]
fn white_space_is_that_of_unicode() {
    for code in 0..=0x10ffff {
        if let Some(c) = char::from_u32(code) {
            assert_eq!(text::is_white_space(c), c.is_whitespace(), "{code:#x}");
        }
    }
}

#[test]
fn trimming_and_words_follow_white_space() {
    for sample in [
        "",
        " ",
        "a",
        "  a b  ",
        "\n\ta\u{2003}b\r\n",
        "\u{a0}x\u{3000}",
        "one two  three",
        "é ß",
    ] {
        assert_eq!(text::trim(sample), sample.trim());
        let expected: Vec<&str> = sample.split_whitespace().collect();
        assert_eq!(text::words(sample), expected);
    }
}

#[test]
fn lower_case_is_that_of_ascii() {
    for sample in ["", "ABC xyz", "ÄÖ", "MiXeD-09", "K"] {
        assert_eq!(text::to_lower(sample), sample.to_ascii_lowercase());
    }
}

#[test]
fn parts_are_found_where_they_first_stand() {
    for (sample, part) in [
        ("", ""),
        ("abc", ""),
        ("abcabc", "bc"),
        ("aab", "ab"),
        ("abc", "abcd"),
        ("éab", "ab"),
        ("xyz", "q"),
    ] {
        assert_eq!(text::contains(sample, part), sample.contains(part));
    }
    let chars = text::chars_of("ababc");
    assert_eq!(text::find(&chars, &text::chars_of("abc")), Some(2));
    assert_eq!(text::text_between(&chars, 1, 4), "bab");
}

#[test]
fn texts_are_joined_and_indented() {
    let parts = vec!["a".to_owned(), "b".to_owned(), "c".to_owned()];
    assert_eq!(text::join_from(&parts, 0, ", "), "a, b, c");
    assert_eq!(text::join_from(&parts, 2, ", "), "c");
    assert_eq!(text::join_from(&parts, 3, ", "), "");
    assert_eq!(text::indent("a\nb\n\nc"), "a\n  b\n  \n  c");
    assert_eq!(text::cat5("1", "2", "3", "4", "5"), "12345");
}

#[test]
fn numbers_are_shown_as_std_shows_them() {
    for value in [0_u64, 7, 15, 16, 255, 4096, 0x0040_0000, u64::MAX] {
        assert_eq!(text::hex8_plain_text(value), format!("{value:08x}"));
        assert_eq!(text::digits_text(u128::from(value), 10), format!("{value}"));
    }
    for value in 0..=255_u8 {
        assert_eq!(text::hex2_text(value), format!("{value:02x}"));
    }
}

#[test]
fn dumps_show_addresses_numbers_and_characters() {
    let data: Vec<u8> = (0x30..0x30 + 18).collect();
    assert_eq!(
        hexdump(0x400001, &data),
        "00400001  30 31 32 33 34 35 36 37 38 39 3a 3b 3c 3d 3e 3f  |0123456789:;<=>?|\n\
         00400011  40 41                                            |@A|"
    );
    assert_eq!(
        hexdump(0xffff_ffff, &vec![0x7f]),
        format!("ffffffff  {:<47}  |.|", "7f")
    );
    assert_eq!(
        hexdump(0, &vec![0, 31, 32, 126]),
        format!("00000000  {:<47}  |.. ~|", "00 1f 20 7e")
    );
}

#[test]
fn dumps_show_every_byte_once() {
    let data: Vec<u8> = (0..=255).collect();
    let dump = hexdump(0x2000_0000, &data);
    let lines: Vec<&str> = dump.lines().collect();
    assert_eq!(lines.len(), 16);
    for (index, byte) in data.iter().enumerate() {
        let column = 10 + 3 * (index % 16);
        assert_eq!(
            &lines[index / 16][column..column + 2],
            format!("{byte:02x}")
        );
    }
}

#[test]
fn user_directories_are_named_after_the_program() {
    assert_eq!(config_directories(ConfigPlace::Xdg), ["jog"]);
    assert_eq!(config_directories(ConfigPlace::AppData), ["jog"]);
    assert_eq!(config_directories(ConfigPlace::Home), [".config", "jog"]);
    assert!(config_directories(ConfigPlace::Explicit).is_empty());
    assert!(config_directories(ConfigPlace::CurrentDirectory).is_empty());
    assert!(config_directories(ConfigPlace::BesideExecutable).is_empty());
}
