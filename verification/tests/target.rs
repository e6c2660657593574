//! The chip: identity, flash geometry and GPNVM bits.
use jog::error::AppError;
use jog::target::{
    gpnvm_bits, parse_descriptor, print_gpnvm, require_identity, ChipInfo, FlashDescriptor, Gpnvm,
    FLASH_BASE, SAM4E8C_EXID,
};

#[test]
fn target_parses_descriptor_with_reported_plane_count() {
    let descriptor =
        parse_descriptor(&[1, 1024 * 1024, 512, 2, 512 * 1024, 512 * 1024, 128, 8192]).unwrap();
    assert_eq!(descriptor.size, 1024 * 1024);
    assert_eq!(descriptor.page_size, 512);
    assert_eq!(descriptor.lock_regions, 128);
    assert_eq!(descriptor.lock_size, 8192);
    assert!(parse_descriptor(&[1, 2, 0, 1, 2, 3, 4]).is_err());
}

#[test]
fn main_parses_descriptor_with_reported_plane_count() {
    let descriptor =
        parse_descriptor(&[1, 1024 * 1024, 512, 2, 512 * 1024, 512 * 1024, 128, 8192]).unwrap();
    assert_eq!(
        descriptor,
        FlashDescriptor {
            id: 1,
            size: 1024 * 1024,
            page_size: 512,
            planes: 2,
            lock_regions: 128,
            lock_size: 8192,
        }
    );
    assert!(parse_descriptor(&[1, 2, 0, 1, 2, 3, 4]).is_err());
}

#[test]
fn rejects_inconsistent_flash_geometry() {
    let valid = [1, 512 * 1024, 512, 1, 512 * 1024, 64, 8192];
    assert!(parse_descriptor(&valid).is_ok());
    for (index, value) in [
        (1, 0),
        (1, u32::MAX),
        (2, 0),
        (3, 0),
        (4, 1),
        (5, 0),
        (6, 1),
    ] {
        let mut invalid = valid;
        invalid[index] = value;
        assert!(parse_descriptor(&invalid).is_err(), "index {index}");
    }
}

#[test]
fn rejects_wrong_target_before_peripheral_access() {
    assert!(require_identity(SAM4E8C_EXID).is_ok());
    assert!(require_identity(0).is_err());
}

fn runtime_message<T: std::fmt::Debug>(result: Result<T, AppError>) -> String {
    match result {
        Err(AppError::Runtime(message)) => message,
        other => panic!("{other:?}"),
    }
}

#[test]
fn names_each_fault_of_a_descriptor() {
    assert_eq!(
        runtime_message(parse_descriptor(&[1, 2, 3, 1, 2, 3])),
        "EEFC flash descriptor is too short"
    );
    assert_eq!(
        runtime_message(parse_descriptor(&[1, 512, 512, 2, 256, 256, 1])),
        "invalid EEFC flash descriptor"
    );
    assert_eq!(
        runtime_message(parse_descriptor(&[1, 512, 512, 9, 0, 0, 0, 0, 0, 0, 0, 0, 0, 0, 0])),
        "invalid EEFC flash descriptor"
    );
    assert_eq!(
        runtime_message(parse_descriptor(&[1, 1024, 512, 2, 512, 511, 1, 1024])),
        "invalid EEFC flash geometry"
    );
    assert_eq!(
        runtime_message(require_identity(0x12)),
        "target is not an ATSAM4E8C (EXID 0x00000012)"
    );
}

fn chip(cidr: u32, exid: u32) -> ChipInfo {
    ChipInfo {
        cidr,
        exid,
        flash: parse_descriptor(&[1, 1024 * 1024, 512, 1, 1024 * 1024, 128, 8192]).unwrap(),
    }
}

#[test]
fn chip_identity_gives_sizes() {
    let sizes = [0, 8, 16, 32, 0, 64, 0, 128, 160, 256, 512, 0, 1024, 0, 2048, 0];
    for (field, size) in sizes.iter().enumerate() {
        let chip = chip(0xffff_f0ff | (field as u32) << 8, SAM4E8C_EXID);
        assert_eq!(chip.cidr_flash_kb(), *size);
    }
    let sizes = [
        48, 192, 384, 6, 24, 4, 80, 160, 8, 16, 32, 64, 128, 256, 96, 512,
    ];
    for (field, size) in sizes.iter().enumerate() {
        let chip = chip(0xfff0_ffff | (field as u32) << 16, SAM4E8C_EXID);
        assert_eq!(chip.sram_kb(), *size);
    }
}

#[test]
fn flash_is_made_of_whole_lock_regions() {
    let chip = chip(0, SAM4E8C_EXID);
    assert_eq!(chip.pages(), 2048);
    assert_eq!(chip.flash_end(), FLASH_BASE + 1024 * 1024);
    assert_eq!(
        chip.pages(),
        chip.flash.lock_regions * (chip.flash.lock_size / chip.flash.page_size)
    );
}

#[test]
fn names_the_supported_chip_and_others() {
    assert_eq!(chip(0, SAM4E8C_EXID).name(), "SAM4E8C");
    assert!(chip(0, SAM4E8C_EXID).require_sam4e8c().is_ok());
    assert_eq!(chip(0, 7).name(), "unsupported (EXID 0x00000007)");
    assert!(chip(0, 7).require_sam4e8c().is_err());
}

#[test]
fn gpnvm_bits_come_from_the_lowest_two_bits() {
    for word in [0, 1, 2, 3, 0xffff_fffc, 0xffff_ffff] {
        let bits = gpnvm_bits(word);
        assert_eq!(u32::from(bits.security), word & 1);
        assert_eq!(u32::from(bits.boot_mode), (word >> 1) & 1);
        assert_eq!(bits.get(0), bits.security);
        assert_eq!(bits.get(1), bits.boot_mode);
    }
    assert_eq!(
        print_gpnvm(Gpnvm { security: 0, boot_mode: 1 }),
        "GPNVM\n  0  security   0  unlocked\n  1  boot_mode  1  boot from Flash"
    );
    assert_eq!(
        print_gpnvm(Gpnvm { security: 1, boot_mode: 0 }),
        "GPNVM\n  0  security   1  debug access disabled\n  1  boot_mode  0  boot from ROM (SAM-BA)"
    );
}
