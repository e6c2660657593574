//! Numbers and addresses as the user writes them.
use jog::error::AppError;
use jog::number::{
    parse_absolute_addr, parse_flash_addr, parse_number, parse_port, parse_positive_usize,
};
use jog::target::{normalize_flash_addr, FLASH_BASE};
use jog::text::{decimal_text, hex8_text, hex_text};

#[test]
fn app_parses_supported_numbers() {
    assert_eq!(parse_number("0x400000").unwrap(), 0x400000);
    assert_eq!(parse_number("400000h").unwrap(), 0x400000);
    assert_eq!(parse_number("4M").unwrap(), 4 * 1024 * 1024);
    assert_eq!(parse_number("1_024").unwrap(), 1024);
    assert!(parse_number("0x").is_err());
    assert!(parse_number("-1").is_err());
}

#[test]
fn main_parses_supported_numbers() {
    assert_eq!(parse_number("0x400000").unwrap(), 0x400000);
    assert_eq!(parse_number("400000h").unwrap(), 0x400000);
    assert_eq!(parse_number("4M").unwrap(), 4 * 1024 * 1024);
    assert_eq!(parse_number("1_024").unwrap(), 1024);
    assert!(parse_number("0x").is_err());
    assert!(parse_number("-1").is_err());
}

#[test]
fn app_normalizes_flash_offsets() {
    assert_eq!(parse_flash_addr("0x7a000").unwrap(), 0x0047a000);
    assert_eq!(parse_flash_addr("0x47a000").unwrap(), 0x0047a000);
    assert!(parse_flash_addr("8G").is_err());
}

#[test]
fn main_normalizes_flash_offsets() {
    assert_eq!(parse_flash_addr("0x7a000").unwrap(), 0x0047a000);
    assert_eq!(parse_flash_addr("0x47a000").unwrap(), 0x0047a000);
    assert!(parse_flash_addr("8G").is_err());
}

#[test]
fn app_keeps_read_addresses_absolute() {
    assert_eq!(parse_absolute_addr("0x00100000").unwrap(), 0x00100000);
    assert!(parse_absolute_addr("8G").is_err());
}

#[test]
fn main_keeps_read_addresses_absolute() {
    assert_eq!(parse_absolute_addr("0x00100000").unwrap(), 0x00100000);
    assert!(parse_absolute_addr("8G").is_err());
}

#[test]
fn accepts_every_radix_and_suffix() {
    assert_eq!(parse_number("0b1010"), Ok(10));
    assert_eq!(parse_number("0o17"), Ok(15));
    assert_eq!(parse_number(" FFh "), Ok(255));
    assert_eq!(parse_number("0XfF"), Ok(255));
    assert_eq!(parse_number("+7"), Ok(7));
    assert_eq!(parse_number("3k"), Ok(3072));
    assert_eq!(parse_number("2g"), Ok(2 * 1024 * 1024 * 1024));
    assert_eq!(parse_number("0x10k"), Ok(16 * 1024));
    assert_eq!(parse_number("10hk"), Ok(16 * 1024));
    assert_eq!(parse_number("18446744073709551615"), Ok(u64::MAX));
}

#[test]
fn names_what_is_wrong_with_a_number() {
    assert_eq!(parse_number(" _ "), Err("number is empty".to_owned()));
    assert_eq!(parse_number("12z"), Err("invalid number: 12z".to_owned()));
    assert_eq!(parse_number("k"), Err("invalid number: k".to_owned()));
    assert_eq!(parse_number("h"), Err("invalid number: h".to_owned()));
    assert_eq!(
        parse_number("18446744073709551616"),
        Err("invalid number: 18446744073709551616".to_owned())
    );
    assert_eq!(
        parse_number("0xffffffffffffffffk"),
        Err("number is too large: 0xffffffffffffffffk".to_owned())
    );
}

#[test]
fn counts_must_be_positive() {
    assert_eq!(parse_positive_usize("16", "length").unwrap(), 16);
    match parse_positive_usize("0", "length") {
        Err(AppError::Usage(message)) => assert_eq!(message, "length must be positive"),
        other => panic!("{other:?}"),
    }
    match parse_positive_usize("x", "length") {
        Err(AppError::Usage(message)) => assert_eq!(message, "invalid number: x"),
        other => panic!("{other:?}"),
    }
}

#[test]
fn ports_lie_between_1_and_65535() {
    assert_eq!(parse_port("1"), Ok(1));
    assert_eq!(parse_port("65535"), Ok(65535));
    for bad in ["0", "65536", "", "x", "0x10", "-1"] {
        assert_eq!(
            parse_port(bad),
            Err("port must be between 1 and 65535".to_owned())
        );
    }
}

#[test]
fn printed_hexadecimal_is_read_back() {
    for value in [0, 1, 9, 10, 255, 0x400000, u64::from(u32::MAX), u64::MAX] {
        assert_eq!(parse_number(&hex_text(value)), Ok(value));
        assert_eq!(parse_number(&hex8_text(value)), Ok(value));
        assert_eq!(hex_text(value), format!("{value:#x}"));
        assert_eq!(hex8_text(value), format!("{value:#010x}"));
        assert_eq!(decimal_text(value), format!("{value}"));
    }
}

#[test]
fn offsets_and_addresses_agree() {
    for offset in [0, 1, 0x7a000, FLASH_BASE as u64 - 1] {
        let address = normalize_flash_addr(offset).unwrap();
        assert_eq!(u64::from(address), offset + u64::from(FLASH_BASE));
        assert_eq!(normalize_flash_addr(u64::from(address)).unwrap(), address);
    }
    assert_eq!(normalize_flash_addr(0xffff_ffff).unwrap(), 0xffff_ffff);
    match normalize_flash_addr(0x1_0000_0000) {
        Err(AppError::Usage(message)) => assert_eq!(message, "address is too large"),
        other => panic!("{other:?}"),
    }
}

#[test]
fn suffixes_multiply_by_powers_of_1024() {
    for text in ["0", "7", "0x10", "FFh", "0b11", "1_0", "18446744073709551615", "x", "", "0x"] {
        for (suffix, factor) in [("k", 1 << 10), ("M", 1 << 20), ("g", 1_u64 << 30)] {
            let expected = parse_number(text).ok().and_then(|n| n.checked_mul(factor));
            assert_eq!(parse_number(&format!("{text}{suffix}")).ok(), expected, "{text}");
        }
    }
    assert_eq!(parse_number("16777215g"), Ok(16777215 << 30));
    assert_eq!(parse_number("17179869183g"), Ok(17179869183 << 30));
    assert!(parse_number("17179869184g").is_err());
}

#[test]
fn case_underscores_and_white_space_do_not_matter() {
    for text in ["0x4aFk", "12", "FFh", "0B11", "1k1", "g", "0x", ""] {
        let expected = parse_number(text).ok();
        assert_eq!(parse_number(&text.to_ascii_lowercase()).ok(), expected);
        assert_eq!(parse_number(&text.to_ascii_uppercase()).ok(), expected);
        assert_eq!(parse_number(&format!(" \t{text}\u{3000}\n")).ok(), expected);
        for at in 0..=text.len() {
            let (front, back) = text.split_at(at);
            assert_eq!(parse_number(&format!("{front}_{back}")).ok(), expected);
        }
    }
    assert_eq!(parse_number(" 1"), Ok(1));
    // An underscore outside the white space keeps it from being trimmed.
    assert!(parse_number("_ 1").is_err());
}
