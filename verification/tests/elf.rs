//! ELF files.
use jog::elf::elf_ranges;
use jog::target::FLASH_BASE;

fn elf_fixture(segments: &[(u32, u32, u32, u32)]) -> Vec<u8> {
    let mut data = vec![0; 52 + segments.len() * 32];
    data[..7].copy_from_slice(b"\x7fELF\x01\x01\x01");
    data[16..18].copy_from_slice(&2_u16.to_le_bytes());
    data[18..20].copy_from_slice(&40_u16.to_le_bytes());
    data[20..24].copy_from_slice(&1_u32.to_le_bytes());
    data[28..32].copy_from_slice(&52_u32.to_le_bytes());
    data[40..42].copy_from_slice(&52_u16.to_le_bytes());
    data[42..44].copy_from_slice(&32_u16.to_le_bytes());
    data[44..46].copy_from_slice(&(segments.len() as u16).to_le_bytes());
    for (index, &(physical, virtual_addr, file_size, memory_size)) in segments.iter().enumerate() {
        let offset = data.len() as u32;
        let header = 52 + index * 32;
        for (field, value) in [
            (0, 1),
            (4, offset),
            (8, virtual_addr),
            (12, physical),
            (16, file_size),
            (20, memory_size),
        ] {
            data[header + field..header + field + 4].copy_from_slice(&value.to_le_bytes());
        }
        data.resize(data.len() + file_size as usize, 0xa5);
    }
    data
}

#[test]
fn elf_uses_physical_load_addresses_and_keeps_gaps() {
    let data = elf_fixture(&[
        (FLASH_BASE, FLASH_BASE, 4, 4),
        (FLASH_BASE + 4, 0x20000000, 8, 0x1000),
        (0x47a000, 0x47a000, 4, 4),
        (0x20001000, 0x20001000, 0, 0x100),
    ]);
    assert_eq!(
        elf_ranges(&data, 0x480000).unwrap(),
        vec![
            FLASH_BASE..FLASH_BASE + 4,
            FLASH_BASE + 4..FLASH_BASE + 12,
            0x47a000..0x47a004,
        ]
    );
}

#[test]
fn elf_rejects_truncation_wrong_machine_and_invalid_load_ranges() {
    let valid = elf_fixture(&[(FLASH_BASE, FLASH_BASE, 4, 4)]);
    for length in 0..valid.len() {
        assert!(elf_ranges(&valid[..length], 0x480000).is_err());
    }
    let mut wrong_machine = valid.clone();
    wrong_machine[18] = 3;
    assert!(elf_ranges(&wrong_machine, 0x480000).is_err());
    for segment in [
        (0x20000000, 0x20000000, 4, 4),
        (0x47ffff, 0x47ffff, 4, 4),
        (0xfffffffe, 0xfffffffe, 4, 4),
        (FLASH_BASE, FLASH_BASE, 4, 3),
        (FLASH_BASE, FLASH_BASE, 0, 4),
    ] {
        assert!(elf_ranges(&elf_fixture(&[segment]), 0x480000).is_err());
    }
}

#[test]
fn elf_names_each_fault() {
    let valid = elf_fixture(&[(FLASH_BASE, FLASH_BASE, 4, 4)]);
    let with = |at: usize, value: u8| {
        let mut data = valid.clone();
        data[at] = value;
        elf_ranges(&data, 0x480000).unwrap_err()
    };
    assert_eq!(with(4, 2), "expected a little-endian ELF32 image");
    assert_eq!(with(16, 3), "expected an ARM executable ELF image");
    assert_eq!(with(42, 40), "unsupported ELF program header table");
    assert_eq!(with(44, 0), "unsupported ELF program header table");
    assert_eq!(with(44, 9), "truncated program header table");
    assert_eq!(with(52 + 20, 3), "load segment file size exceeds memory size");
    assert_eq!(with(52 + 4, 0xff), "truncated load segment");
    assert_eq!(with(52, 2), "image has no flash load data");
    assert_eq!(
        elf_ranges(&elf_fixture(&[(0xfffffffe, 0, 4, 4)]), 0x480000).unwrap_err(),
        "load address overflow"
    );
    assert_eq!(
        elf_ranges(&elf_fixture(&[(0x47ffff, 0, 4, 4)]), 0x480000).unwrap_err(),
        "load segment 0x0047ffff-0x00480003 is outside flash (0x00400000-0x00480000)"
    );
}

#[test]
fn elf_ranges_lie_in_flash() {
    let data = elf_fixture(&[(0x47fffc, 0, 4, 4), (FLASH_BASE, 0, 2, 8)]);
    for range in elf_ranges(&data, 0x480000).unwrap() {
        assert!(FLASH_BASE <= range.start && range.start < range.end && range.end <= 0x480000);
    }
}
