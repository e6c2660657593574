//! Intel HEX files.
use jog::ihex::Chunk;
use std::ops::Range;

fn ranges(data: &[u8], flash_base: u32, flash_end: u32) -> Result<Vec<Range<u32>>, String> {
    jog::ihex::parse(data, flash_base, flash_end).map(|chunks| {
        chunks
            .into_iter()
            .map(|chunk| chunk.address..chunk.address + chunk.data.len() as u32)
            .collect()
    })
}

fn record(kind: u8, address: u16, payload: &[u8]) -> String {
    let mut bytes = vec![
        payload.len() as u8,
        (address >> 8) as u8,
        address as u8,
        kind,
    ];
    bytes.extend(payload);
    let checksum = bytes.iter().fold(0u8, |sum, byte| sum.wrapping_sub(*byte));
    bytes.push(checksum);
    format!(
        ":{}\n",
        bytes
            .iter()
            .map(|byte| format!("{byte:02X}"))
            .collect::<String>()
    )
}

fn parse(records: &[String]) -> Result<Vec<Range<u32>>, String> {
    ranges(records.concat().as_bytes(), 0x00400000, 0x00480000)
}

fn linear() -> String {
    record(4, 0, &[0, 0x40])
}
fn eof() -> String {
    record(1, 0, &[])
}

#[test]
fn decoded_bytes_follow_address_order() {
    let text = [
        linear(),
        record(0, 2, &[0xab, 0xcd]),
        record(0, 0, &[0x12, 0x34]),
        record(0, 0x100, &[0x56]),
        eof(),
    ]
    .concat();
    assert_eq!(
        jog::ihex::parse(text.as_bytes(), 0x400000, 0x480000).unwrap(),
        vec![
            Chunk {
                address: 0x400000,
                data: vec![0x12, 0x34, 0xab, 0xcd]
            },
            Chunk {
                address: 0x400100,
                data: vec![0x56]
            },
        ]
    );
}

#[test]
fn separated_ranges_are_sorted_and_adjacent_records_merge() {
    assert_eq!(
        parse(&[
            record(4, 0, &[0, 0x42]),
            record(0, 0x100, &[1, 2]),
            linear(),
            record(0, 2, &[3, 4]),
            record(0, 0, &[1, 2]),
            eof(),
        ])
        .unwrap(),
        vec![0x400000..0x400004, 0x420100..0x420102]
    );
}

#[test]
fn segment_and_linear_bases_replace_each_other() {
    let data = [
        record(2, 0, &[0x12, 0x34]),
        record(0, 0x56, &[1]),
        record(4, 0, &[0, 2]),
        record(0, 0, &[2]),
        eof(),
    ]
    .concat();
    assert_eq!(
        ranges(data.as_bytes(), 0, 0x400000).unwrap(),
        vec![0x12396..0x12397, 0x20000..0x20001]
    );
}

#[test]
fn segment_offset_wraps_within_the_segment() {
    let data = [
        record(2, 0, &[0x12, 0x34]),
        record(0, 0xffff, &[0xab, 0xcd]),
        eof(),
    ]
    .concat();
    assert_eq!(
        jog::ihex::parse(data.as_bytes(), 0, 0x400000).unwrap(),
        vec![
            Chunk {
                address: 0x12340,
                data: vec![0xcd]
            },
            Chunk {
                address: 0x2233f,
                data: vec![0xab]
            },
        ]
    );
}

#[test]
fn record_crossing_64k_does_not_change_base_for_later_records() {
    assert_eq!(
        parse(&[
            linear(),
            record(0, 0xffff, &[1, 2]),
            record(0, 0, &[3]),
            eof()
        ])
        .unwrap(),
        vec![0x400000..0x400001, 0x40ffff..0x410001]
    );
}

#[test]
fn accepts_crlf_lowercase_blank_lines_and_no_final_newline() {
    let text = [linear(), record(0, 0, &[0xab]), eof()]
        .concat()
        .to_lowercase()
        .replace('\n', "\r\n\r\n");
    assert_eq!(
        ranges(text.trim_end().as_bytes(), 0x400000, 0x480000).unwrap(),
        vec![0x400000..0x400001]
    );
}

#[test]
fn case_and_line_breaks_of_a_whole_file_do_not_matter() {
    let good = [linear(), record(0, 0xa0, &[0xab, 0xcd]), eof()].concat();
    let bad = [linear(), record(0, 0, &[0xab]), eof(), record(0, 4, &[1])].concat();
    for (text, accepted) in [
        (good.clone(), true),
        (good.trim_end().to_owned(), true),
        (good.replace('\n', "\n\n"), true),
        (good.replace('A', "G"), false),
        (bad, false),
        (linear(), false),
        ("\n\n".to_owned(), false),
        (String::new(), false),
    ] {
        let expected = jog::ihex::parse(text.as_bytes(), 0x400000, 0x480000).ok();
        assert_eq!(expected.is_some(), accepted, "{text:?}");
        let mut other = text.to_ascii_lowercase().replace('\n', "\r\n\r\n");
        loop {
            let found = jog::ihex::parse(other.as_bytes(), 0x400000, 0x480000).ok();
            assert_eq!(found, expected, "{other:?}");
            if !other.ends_with('\n') && !other.ends_with('\r') {
                break;
            }
            other.pop();
        }
    }
}

#[test]
fn entry_points_do_not_change_data_addresses() {
    assert_eq!(
        parse(&[
            linear(),
            record(3, 0, &[1, 2, 3, 4]),
            record(5, 0, &[5, 6, 7, 8]),
            record(0, 0, &[1]),
            eof()
        ])
        .unwrap(),
        vec![0x400000..0x400001]
    );
}

#[test]
fn rejects_identical_partial_and_contained_overlaps() {
    for (offset, bytes) in [(0, vec![1, 2]), (1, vec![2, 3]), (1, vec![2])] {
        assert!(
            parse(&[
                linear(),
                record(0, 0, &[1, 2]),
                record(0, offset, &bytes),
                eof()
            ])
            .unwrap_err()
            .contains("overlap")
        );
    }
}

#[test]
fn checks_flash_bounds_and_address_overflow() {
    for records in [
        vec![record(0, 0, &[1]), eof()],
        vec![record(4, 0, &[0, 0x48]), record(0, 0, &[1]), eof()],
        vec![record(4, 0, &[0, 0x47]), record(0, 0xffff, &[1, 2]), eof()],
    ] {
        assert!(parse(&records).unwrap_err().contains("outside flash"));
    }
    let data = [record(4, 0, &[0xff, 0xff]), record(0, 0xffff, &[1]), eof()].concat();
    assert!(
        ranges(data.as_bytes(), 0, u32::MAX)
            .unwrap_err()
            .contains("overflow")
    );
    assert_eq!(
        parse(&[record(4, 0, &[0, 0x47]), record(0, 0xffff, &[1]), eof()]).unwrap(),
        vec![0x47ffff..0x480000]
    );
}

#[test]
fn rejects_missing_eof_empty_images_and_content_after_eof() {
    for records in [
        vec![],
        vec![eof()],
        vec![linear(), record(0, 0, &[]), eof()],
        vec![linear(), record(0, 0, &[1])],
        vec![linear(), record(0, 0, &[1]), eof(), eof()],
        vec![linear(), record(0, 0, &[1]), eof(), record(0, 1, &[2])],
    ] {
        assert!(parse(&records).is_err());
    }
}

#[test]
fn rejects_bad_record_shapes_and_unknown_types() {
    for kind in 1..=5 {
        assert!(parse(&[linear(), record(kind, 1, &[]), eof()]).is_err());
        let wrong_count = if kind == 1 { vec![0] } else { vec![] };
        assert!(parse(&[linear(), record(kind, 0, &wrong_count), eof()]).is_err());
    }
    assert!(
        parse(&[linear(), record(6, 0, &[]), eof()])
            .unwrap_err()
            .contains("unsupported")
    );
}

#[test]
fn rejects_bad_checksums_counts_truncation_and_non_ascii() {
    for bad in [
        ":010000000100\n",
        ":0200000001FE\n",
        ":0100000001F\n",
        ":01000000GGFE\n",
        ":\n",
        "0100000001FF\n",
        ":00000001FFextra\n",
        ":00000001Fé\n",
        " :00000001FF\n",
        "# comment\n",
    ] {
        assert!(parse(&[linear(), bad.into(), eof()]).is_err(), "{bad:?}");
    }
}

#[test]
fn chunks_hold_every_record_byte_at_its_address() {
    let text = [
        linear(),
        record(0, 8, &[9, 10, 11]),
        record(0, 0, &[1, 2, 3]),
        record(0, 3, &[4]),
        eof(),
    ]
    .concat();
    let chunks = jog::ihex::parse(text.as_bytes(), 0x400000, 0x480000).unwrap();
    let expected = [
        (0x400000, 1),
        (0x400001, 2),
        (0x400002, 3),
        (0x400003, 4),
        (0x400008, 9),
        (0x400009, 10),
        (0x40000a, 11),
    ];
    let mut found = Vec::new();
    for chunk in &chunks {
        for (offset, byte) in chunk.data.iter().enumerate() {
            found.push((chunk.address + offset as u32, *byte));
        }
    }
    assert_eq!(found, expected);
    assert_eq!(chunks.len(), 2);
    for pair in chunks.windows(2) {
        assert!(pair[0].address + (pair[0].data.len() as u32) < pair[1].address);
    }
}

#[test]
fn overlap_is_reported_at_the_first_common_address() {
    let error = parse(&[
        linear(),
        record(0, 0x10, &[1, 2, 3, 4]),
        record(0, 0x12, &[3]),
        eof(),
    ])
    .unwrap_err();
    assert_eq!(error, "Intel HEX data overlaps at 0x00400012");
}

#[test]
fn blank_lines_and_entry_points_can_stand_anywhere() {
    let plain = parse(&[linear(), record(0, 0, &[1, 2]), eof()]).unwrap();
    for extra in ["\n".to_owned(), "\r\n".to_owned(), record(3, 0, &[0; 4]), record(5, 0, &[9; 4])] {
        let at_start = parse(&[extra.clone(), linear(), record(0, 0, &[1, 2]), eof()]);
        assert_eq!(at_start.unwrap(), plain);
        let before_end = parse(&[linear(), record(0, 0, &[1, 2]), extra.clone(), eof()]);
        assert_eq!(before_end.unwrap(), plain);
    }
    assert!(parse(&[linear(), record(0, 0, &[1, 2]), eof(), "\n".to_owned()]).is_ok());
    assert!(parse(&[linear(), record(0, 0, &[1, 2]), eof(), record(5, 0, &[9; 4])]).is_err());
}

#[test]
fn each_fault_of_a_file_has_its_own_message() {
    assert_eq!(
        parse(&[linear(), record(0, 0, &[1])]).unwrap_err(),
        "Intel HEX is missing an end-of-file record"
    );
    assert_eq!(
        parse(&[linear(), eof()]).unwrap_err(),
        "Intel HEX contains no data"
    );
    let error = parse(&[linear(), ":00000001FE\n".to_owned()]).unwrap_err();
    assert!(error.contains("line 2"), "{error}");
    assert!(error.contains("checksum"), "{error}");
}

#[test]
fn digits_have_their_hexadecimal_values() {
    assert_eq!(jog::ihex::digit(b'0'), Some(0));
    assert_eq!(jog::ihex::digit(b'9'), Some(9));
    assert_eq!(jog::ihex::digit(b'a'), Some(10));
    assert_eq!(jog::ihex::digit(b'F'), Some(15));
    assert_eq!(jog::ihex::digit(b'g'), None);
    assert_eq!(jog::ihex::digit(b':'), None);
}
