//! Image files: formats, addresses, and the plan to write them.
use jog::config::{Image, ImagePart, LoadedConfig};
use jog::error::AppError;
use jog::flash::{plan_flash, prepare_flash_parts, FlashPlan};
use jog::image::{
    arrange_ranges, erase_range_command, image_format, image_type, part_label, programming_path,
    stage_error, validate_image_address, validate_part_range, verify_command, write_command,
    FlashPart, ImageFile, ImageFormat,
};
use jog::target::FLASH_BASE;
use jog::walk::{Op, Reply, Stop, Walk};
use std::ops::Range;
use std::path::Path;

fn file(path: &str) -> ImageFile {
    ImageFile {
        path: path.to_owned(),
        extension: extension(path),
    }
}

fn extension(path: &str) -> Option<String> {
    Path::new(path)
        .extension()
        .and_then(|extension| extension.to_str())
        .map(str::to_owned)
}

fn usage_message<T: std::fmt::Debug>(result: Result<T, AppError>) -> String {
    match result {
        Err(AppError::Usage(message)) => message,
        other => panic!("{other:?}"),
    }
}

#[test]
fn flash_enforces_image_address_rules() {
    assert!(validate_image_address(&file("x.bin"), None, "test").is_err());
    assert_eq!(
        validate_image_address(&file("x.bin"), Some(0x10), "test").unwrap(),
        FLASH_BASE + 0x10
    );
    assert!(validate_image_address(&file("x.elf"), Some(FLASH_BASE.into()), "test").is_err());
    assert_eq!(
        validate_image_address(&file("x.elf"), None, "test").unwrap(),
        0
    );
    assert!(image_format(&file("x.txt")).is_err());
}

#[test]
fn main_enforces_image_address_rules() {
    assert!(validate_image_address(&file("x.bin"), None, "test").is_err());
    assert!(validate_image_address(&file("x.bin"), Some(FLASH_BASE.into()), "test").is_ok());
    assert!(validate_image_address(&file("x.elf"), Some(FLASH_BASE.into()), "test").is_err());
    assert!(validate_image_address(&file("x.elf"), None, "test").is_ok());
    assert!(image_format(&file("x.txt")).is_err());
}

#[test]
fn formats_follow_extensions_in_either_case() {
    for (path, format) in [
        ("a.bin", ImageFormat::Bin),
        ("a.BIN", ImageFormat::Bin),
        ("a.elf", ImageFormat::Elf),
        ("a.Axf", ImageFormat::Elf),
        ("a.hex", ImageFormat::IntelHex),
        ("a.iHex", ImageFormat::IntelHex),
        ("a.b.mcs", ImageFormat::IntelHex),
    ] {
        assert_eq!(image_format(&file(path)).unwrap(), format, "{path}");
    }
    assert_eq!(
        usage_message(image_format(&file("dir/a"))),
        "image file has no supported extension: dir/a"
    );
    assert_eq!(
        usage_message(image_format(&file("a.S19"))),
        "self-addressed image a.S19 cannot be validated before erase; use a raw .bin with an address"
    );
    assert!(image_format(&file("a.srec")).is_err());
    assert_eq!(
        usage_message(image_format(&file("a.TXT"))),
        "unsupported image extension '.txt' for a.TXT"
    );
}

#[test]
fn address_complaints_name_the_context() {
    assert_eq!(
        usage_message(validate_image_address(&file("x.bin"), None, "image 'app'")),
        "raw .bin in image 'app' requires an address"
    );
    assert_eq!(
        usage_message(validate_image_address(&file("x.hex"), Some(0), "image 'app'")),
        "image in image 'app' uses its own load addresses; remove the address"
    );
    assert_eq!(
        usage_message(validate_image_address(&file("x.bin"), Some(1 << 32), "test")),
        "address is too large"
    );
}

#[test]
fn pads_multi_part_flash_erase_ranges() {
    assert_eq!(
        erase_range_command(&(FLASH_BASE + 1..FLASH_BASE + 5)),
        "flash erase_address pad unlock 0x400001 0x4"
    );
}

fn bin(file: &str, addr: u32) -> FlashPart {
    FlashPart {
        file: file.to_owned(),
        addr,
        format: ImageFormat::Bin,
        staged: None,
    }
}

#[test]
fn commands_name_the_file_that_is_programmed() {
    let raw = bin("/a b/x.bin", 0x400010);
    assert_eq!(
        write_command(&raw, true),
        "flash write_image erase unlock \"/a b/x.bin\" 0x400010 bin"
    );
    assert_eq!(
        write_command(&raw, false),
        "flash write_image unlock \"/a b/x.bin\" 0x400010 bin"
    );
    assert_eq!(verify_command(&raw), "verify_image \"/a b/x.bin\" 0x400010 bin");
    assert_eq!(part_label(&raw), "/a b/x.bin @ 0x00400010");
    let staged = FlashPart {
        file: "/x.hex".into(),
        addr: 0x400000,
        format: ImageFormat::Bin,
        staged: Some("/tmp/s$".into()),
    };
    assert_eq!(programming_path(&staged), "/tmp/s$");
    assert_eq!(verify_command(&staged), "verify_image \"/tmp/s\\$\" 0x400000 bin");
    assert_eq!(part_label(&staged), "/x.hex @ 0x00400000");
    let elf = FlashPart {
        file: "/x.elf".into(),
        addr: 0,
        format: ImageFormat::Elf,
        staged: None,
    };
    assert_eq!(
        write_command(&elf, false),
        "flash write_image unlock \"/x.elf\" 0x0 elf"
    );
    assert_eq!(part_label(&elf), "/x.elf at ELF load addresses");
    assert_eq!(programming_path(&elf), "/x.elf");
}

#[test]
fn accepts_exact_flash_end_and_rejects_one_byte_past() {
    assert!(validate_part_range(&bin("exact.bin", FLASH_BASE), 4, FLASH_BASE + 4).is_ok());
    assert!(validate_part_range(&bin("past.bin", FLASH_BASE), 5, FLASH_BASE + 4).is_err());
}

#[test]
fn names_what_is_wrong_with_a_raw_file() {
    let end = FLASH_BASE + 0x1000;
    assert_eq!(
        usage_message(validate_part_range(&bin("x.bin", 0x3fffff), 1, end)),
        "0x003fffff is outside flash (0x00400000-0x00401000)"
    );
    assert_eq!(
        usage_message(validate_part_range(&bin("x.bin", end), 1, end)),
        "0x00401000 is outside flash (0x00400000-0x00401000)"
    );
    assert_eq!(
        usage_message(validate_part_range(&bin("x.bin", FLASH_BASE), 0, end)),
        "raw image is empty: x.bin"
    );
    assert_eq!(
        usage_message(validate_part_range(&bin("x.bin", end - 1), 2, end)),
        "x.bin (2 B) at 0x00400fff runs past flash end 0x00401000"
    );
    assert!(validate_part_range(&bin("x.bin", FLASH_BASE), u64::MAX, end).is_err());
    match stage_error("disk full") {
        AppError::Runtime(message) => assert_eq!(
            message,
            "cannot stage Intel HEX data before erase: disk full"
        ),
        other => panic!("{other:?}"),
    }
}

#[test]
fn ranges_are_sorted_and_overlaps_are_rejected() {
    let sorted = arrange_ranges(&vec![20..30, 0..10, 10..20]).unwrap();
    assert_eq!(sorted, [0..10, 10..20, 20..30]);
    assert_eq!(
        usage_message(arrange_ranges(&vec![0x20..0x30, 0..0x10, 0xf..0x20])),
        "image ranges overlap: 0x00000000-0x0000000f and 0x0000000f-0x0000001f"
    );
    for overlapping in [
        vec![0..10, 0..10],
        vec![5..6, 0..10],
        vec![0..100, 10..20, 90..110],
        vec![1..3, 7..9, 2..4],
    ] {
        assert!(arrange_ranges(&overlapping).is_err(), "{overlapping:?}");
    }
    assert!(arrange_ranges(&Vec::new()).unwrap().is_empty());
}

fn elf_fixture(segments: &[(u32, u32, u32, u32)]) -> Vec<u8> {
    let mut data = vec![0; 52 + segments.len() * 32];
    data[..7].copy_from_slice(b"\x7fELF\x01\x01\x01");
    data[16..18].copy_from_slice(&2_u16.to_le_bytes());
    data[18..20].copy_from_slice(&40_u16.to_le_bytes());
    data[20..24].copy_from_slice(&1_u32.to_le_bytes());
    data[28..32].copy_from_slice(&52_u32.to_le_bytes());
    data[40..42].copy_from_slice(&52_u16.to_le_bytes());
    data[42..44].copy_from_slice(&32_u16.to_le_bytes());
    data[44..46].copy_from_slice(&(segments.len() as u16).to_le_bytes());
    for (index, &(physical, virtual_addr, file_size, memory_size)) in segments.iter().enumerate() {
        let offset = data.len() as u32;
        let header = 52 + index * 32;
        for (field, value) in [
            (0, 1),
            (4, offset),
            (8, virtual_addr),
            (12, physical),
            (16, file_size),
            (20, memory_size),
        ] {
            data[header + field..header + field + 4].copy_from_slice(&value.to_le_bytes());
        }
        data.resize(data.len() + file_size as usize, 0xa5);
    }
    data
}

fn hex_record(address: u16, kind: u8, bytes: &[u8]) -> String {
    let mut record = vec![bytes.len() as u8, (address >> 8) as u8, address as u8, kind];
    record.extend_from_slice(bytes);
    record.push(0u8.wrapping_sub(record.iter().fold(0u8, |sum, byte| sum.wrapping_add(*byte))));
    format!(
        ":{}\n",
        record
            .iter()
            .map(|byte| format!("{byte:02X}"))
            .collect::<String>()
    )
}

fn hex_fixture() -> String {
    [
        hex_record(0, 4, &[0, 0x40]),
        hex_record(0, 0, &[1, 2, 3, 4]),
        hex_record(4, 0, &[5, 6]),
        hex_record(0, 4, &[0, 0x42]),
        hex_record(0x1000, 0, &[7, 8, 9]),
        hex_record(0, 1, &[]),
    ]
    .concat()
}

/// Files in memory: name, the file that it resolves to, and the contents.
struct Files {
    files: Vec<(String, String, Vec<u8>)>,
    staged: Vec<Vec<u8>>,
}

impl Files {
    fn new() -> Files {
        Files {
            files: Vec::new(),
            staged: Vec::new(),
        }
    }

    fn write(&mut self, name: &str, contents: &[u8]) {
        self.link(name, name, contents);
    }

    fn link(&mut self, name: &str, resolved: &str, contents: &[u8]) {
        self.files.retain(|file| file.0 != name);
        self.files
            .push((name.to_owned(), resolved.to_owned(), contents.to_vec()));
    }

    fn find(&self, name: &str) -> Option<&(String, String, Vec<u8>)> {
        self.files
            .iter()
            .find(|file| file.0 == name || file.1 == name)
    }

    fn reply(&mut self, op: &Op) -> Reply {
        let missing = || Reply::Failed("not found".to_owned());
        match op {
            Op::Examine(name) => Reply::File(self.find(name).is_some(), extension(name)),
            Op::IsFile(name) => Reply::Flag(self.find(name).is_some()),
            Op::Resolve(name) => self
                .find(name)
                .map_or_else(missing, |file| Reply::Path(file.1.clone(), true)),
            Op::ReadFile(name) => self
                .find(name)
                .map_or_else(missing, |file| Reply::Bytes(file.2.clone())),
            Op::FileSize(name) => self
                .find(name)
                .map_or_else(missing, |file| Reply::Number(file.2.len() as u64)),
            Op::Stage(bytes) => {
                self.staged.push(bytes.clone());
                Reply::Path(format!("/staged/{}", self.staged.len() - 1), true)
            }
            other => panic!("{other:?}"),
        }
    }

    /// Runs a step until it ends.
    fn drive<T>(&mut self, step: impl Fn(&mut Walk) -> Result<T, Stop>) -> Result<T, AppError> {
        let mut replies = Vec::new();
        loop {
            match step(&mut Walk::new(&replies)) {
                Ok(value) => return Ok(value),
                Err(Stop::Ask(op)) => replies.push(self.reply(&op)),
                Err(Stop::Fail(error)) => return Err(error),
                Err(other) => panic!("{other:?}"),
            }
        }
    }

    fn plan(&mut self, parts: &Vec<FlashPart>, flash_end: u32) -> Result<FlashPlan, AppError> {
        self.drive(|walk| plan_flash(walk, parts, flash_end))
    }

    fn prepare(
        &mut self,
        target: &str,
        addr: Option<u32>,
        config: &LoadedConfig,
    ) -> Result<Vec<FlashPart>, AppError> {
        self.drive(|walk| prepare_flash_parts(walk, target, addr, config))
    }
}

fn no_config() -> LoadedConfig {
    LoadedConfig {
        path: None,
        images: Vec::new(),
    }
}

fn expect_ranges(plan: FlashPlan) -> (Vec<Range<u32>>, Vec<FlashPart>) {
    match plan {
        FlashPlan::Ranges { ranges, parts } => (ranges, parts),
        FlashPlan::Single => panic!("expected ranges"),
    }
}

#[test]
fn elf_plan_rejects_overlapping_segments_before_erase() {
    let mut files = Files::new();
    files.write(
        "overlap.elf",
        &elf_fixture(&[
            (FLASH_BASE, FLASH_BASE, 8, 8),
            (FLASH_BASE + 4, FLASH_BASE + 4, 8, 8),
        ]),
    );
    let parts = vec![FlashPart {
        file: "overlap.elf".into(),
        addr: 0,
        format: ImageFormat::Elf,
        staged: None,
    }];
    assert!(files.plan(&parts, 0x480000).is_err());
}

#[test]
fn keeps_declared_format_when_resolving_symlinks() {
    let mut files = Files::new();
    let data = elf_fixture(&[(FLASH_BASE, FLASH_BASE, 4, 4)]);
    files.link("/dir/app.elf", "/dir/image-data", &data);
    files.link("/dir/app.bin", "/dir/target.elf", &data);

    let elf = files.prepare("/dir/app.elf", None, &no_config()).unwrap();
    assert_eq!(elf[0].file, "/dir/image-data");
    assert_eq!(image_type(&elf[0]), "elf");
    assert_eq!(elf[0].addr, 0);
    match files.plan(&elf, 0x480000).unwrap() {
        FlashPlan::Ranges { ranges, .. } => {
            assert_eq!(ranges, vec![FLASH_BASE..FLASH_BASE + 4])
        }
        FlashPlan::Single => panic!("expected ELF load ranges"),
    }

    let bin = files
        .prepare("/dir/app.bin", Some(FLASH_BASE), &no_config())
        .unwrap();
    assert_eq!(bin[0].file, "/dir/target.elf");
    assert_eq!(image_type(&bin[0]), "bin");
    assert_eq!(bin[0].addr, FLASH_BASE);
    assert_eq!(
        validate_part_range(&bin[0], data.len() as u64, 0x480000).unwrap(),
        FLASH_BASE..FLASH_BASE + data.len() as u32
    );
    assert!(matches!(
        files.plan(&bin, 0x480000).unwrap(),
        FlashPlan::Single
    ));
}

#[test]
fn hex_aliases_stage_exact_bytes_at_absolute_addresses() {
    for extension in ["hex", "ihex", "mcs", "HEX", "MCS"] {
        let mut files = Files::new();
        let name = format!("/dir/firmware.{extension}");
        files.write(&name, hex_fixture().as_bytes());
        assert!(validate_image_address(&file(&name), Some(0), "test").is_err());
        let input = files.prepare(&name, None, &no_config()).unwrap();
        let (ranges, parts) = expect_ranges(files.plan(&input, 0x480000).unwrap());
        assert_eq!(ranges, [FLASH_BASE..FLASH_BASE + 6, 0x421000..0x421003]);
        assert_eq!(parts.len(), 2);
        for (index, part, address, bytes) in [
            (0, &parts[0], FLASH_BASE, &[1, 2, 3, 4, 5, 6][..]),
            (1, &parts[1], 0x421000, &[7, 8, 9][..]),
        ] {
            assert_eq!(part.addr, address);
            assert_eq!(image_type(part), "bin");
            assert_eq!(programming_path(part), format!("/staged/{index}"));
            assert_eq!(files.staged[index], bytes);
            assert_eq!(part.file, name);
        }
    }
}

fn named(name: &str, parts: &[(&str, Option<u64>)]) -> LoadedConfig {
    LoadedConfig {
        path: Some("jog.toml".into()),
        images: vec![Image {
            name: name.to_owned(),
            description: None,
            parts: parts
                .iter()
                .map(|(path, addr)| ImagePart {
                    file: file(path),
                    addr: *addr,
                })
                .collect(),
        }],
    }
}

#[test]
fn plans_mixed_named_images_and_rejects_cross_format_overlaps() {
    let mut files = Files::new();
    files.write("/dir/firmware.mcs", hex_fixture().as_bytes());
    files.write("/dir/extra.bin", &[10, 11]);
    files.write(
        "/dir/extra.elf",
        &elf_fixture(&[(0x430000, 0x430000, 4, 4)]),
    );
    let config = named(
        "combined",
        &[
            ("/dir/firmware.mcs", None),
            ("/dir/extra.bin", Some(0x410000)),
            ("/dir/extra.elf", None),
        ],
    );
    let mut input = files.prepare("combined", None, &config).unwrap();
    let (ranges, parts) = expect_ranges(files.plan(&input, 0x480000).unwrap());
    assert_eq!(
        ranges,
        vec![
            FLASH_BASE..FLASH_BASE + 6,
            0x410000..0x410002,
            0x421000..0x421003,
            0x430000..0x430004
        ]
    );
    assert_eq!(parts.len(), 4);
    input[1].addr = FLASH_BASE + 2;
    assert!(usage_message(files.plan(&input, 0x480000)).contains("overlap"));
    input[1].addr = 0x410000;
    files.write(
        "/dir/extra.elf",
        &elf_fixture(&[(FLASH_BASE, FLASH_BASE, 4, 4)]),
    );
    assert!(usage_message(files.plan(&input, 0x480000)).contains("overlap"));
}

#[test]
fn malformed_hex_prevents_a_complete_plan() {
    let mut files = Files::new();
    files.write(
        "/dir/invalid.hex",
        hex_fixture()
            .replace(":00000001FF", ":00000001FE")
            .as_bytes(),
    );
    let parts = files
        .prepare("/dir/invalid.hex", None, &no_config())
        .unwrap();
    let error = usage_message(files.plan(&parts, 0x480000));
    assert!(error.contains("invalid Intel HEX"), "{error}");
    assert!(error.contains("checksum"), "{error}");
    assert!(files.staged.is_empty());
}

#[test]
fn keeps_hex_format_for_extensionless_symlink_targets() {
    let mut files = Files::new();
    files.link("/dir/firmware.mcs", "/dir/data", hex_fixture().as_bytes());
    let parts = files
        .prepare("/dir/firmware.mcs", None, &no_config())
        .unwrap();
    assert!(parts[0].format == ImageFormat::IntelHex);
    assert_eq!(parts[0].file, "/dir/data");
    assert!(files.plan(&parts, 0x480000).is_ok());
}

#[test]
fn flash_plans_multi_part_flash_before_writes() {
    let mut files = Files::new();
    files.write("first.bin", &[1, 2, 3, 4]);
    files.write("second.bin", &[5, 6, 7, 8]);
    let parts = vec![
        bin("first.bin", FLASH_BASE),
        bin("second.bin", FLASH_BASE + 8),
    ];
    match files.plan(&parts, FLASH_BASE + 1024).unwrap() {
        FlashPlan::Ranges { ranges, .. } => assert_eq!(
            ranges,
            vec![FLASH_BASE..FLASH_BASE + 4, FLASH_BASE + 8..FLASH_BASE + 12]
        ),
        FlashPlan::Single => panic!("expected a multi-part plan"),
    }
}

#[test]
fn main_plans_multi_part_flash_before_writes() {
    let mut files = Files::new();
    files.write("first.bin", &[1, 2, 3, 4]);
    files.write("second.bin", &[5, 6, 7, 8]);
    let parts = vec![
        bin("first.bin", FLASH_BASE),
        bin("second.bin", FLASH_BASE + 8),
    ];
    match files.plan(&parts, FLASH_BASE + 1024).unwrap() {
        FlashPlan::Ranges { ranges, .. } => assert_eq!(
            ranges,
            vec![FLASH_BASE..FLASH_BASE + 4, FLASH_BASE + 8..FLASH_BASE + 12]
        ),
        FlashPlan::Single => panic!("expected a multi-part plan"),
    }
}

#[test]
fn rejects_overlapping_multi_part_flash_plans() {
    let mut files = Files::new();
    files.write("first.bin", &[0; 8]);
    files.write("second.bin", &[0; 8]);
    let overlap = vec![
        bin("first.bin", FLASH_BASE),
        bin("second.bin", FLASH_BASE + 4),
    ];
    assert!(files.plan(&overlap, FLASH_BASE + 1024).is_err());
}

#[test]
fn rejects_unsafe_multi_part_flash_plans() {
    let mut files = Files::new();
    files.write("first.bin", &[0; 8]);
    files.write("second.bin", &[0; 8]);
    files.write("third.elf", &[0; 8]);
    let overlap = vec![
        bin("first.bin", FLASH_BASE),
        bin("second.bin", FLASH_BASE + 4),
    ];
    assert!(files.plan(&overlap, FLASH_BASE + 1024).is_err());
    let mixed = vec![
        FlashPart {
            file: "third.elf".into(),
            addr: 0,
            format: ImageFormat::Elf,
            staged: None,
        },
        bin("second.bin", FLASH_BASE + 16),
    ];
    assert!(files.plan(&mixed, FLASH_BASE + 1024).is_err());
}

#[test]
fn plans_name_what_is_wrong() {
    let mut files = Files::new();
    assert_eq!(
        usage_message(files.plan(&Vec::new(), 0x480000)),
        "image has no parts"
    );
    assert_eq!(
        usage_message(files.plan(&vec![bin("gone.bin", FLASH_BASE)], 0x480000)),
        "cannot read gone.bin: not found"
    );
    files.write("x.elf", &[0; 8]);
    let elf = vec![FlashPart {
        file: "x.elf".into(),
        addr: 0,
        format: ImageFormat::Elf,
        staged: None,
    }];
    assert_eq!(
        usage_message(files.plan(&elf, 0x480000)),
        "invalid ELF x.elf: expected a little-endian ELF32 image"
    );
}

#[test]
fn preparing_names_what_is_wrong() {
    let mut files = Files::new();
    files.write("/x.bin", &[1]);
    let config = named("app", &[("/gone.bin", Some(0))]);
    assert_eq!(
        usage_message(files.prepare("other", None, &config)),
        "'other' is not an existing file or named image (app)"
    );
    assert_eq!(
        usage_message(files.prepare("other", None, &no_config())),
        "'other' is not an existing file or named image (none defined)"
    );
    assert_eq!(
        usage_message(files.prepare("app", Some(FLASH_BASE), &config)),
        "--addr does not apply to a named image; edit jog.toml instead"
    );
    assert_eq!(
        usage_message(files.prepare("app", None, &config)),
        "image file does not exist: /gone.bin"
    );
    assert_eq!(
        usage_message(files.prepare("/x.bin", None, &config)),
        "raw .bin in image file requires an address"
    );
    let parts = files.prepare("/x.bin", Some(FLASH_BASE + 1), &config).unwrap();
    assert_eq!(parts[0].addr, FLASH_BASE + 1);
    let replies = [
        Reply::File(true, Some("bin".into())),
        Reply::Flag(true),
        Reply::Path("/\u{fffd}".into(), false),
    ];
    match prepare_flash_parts(&mut Walk::new(&replies), "/x.bin", Some(0x400000), &config) {
        Err(Stop::Fail(AppError::Usage(message))) => {
            assert_eq!(message, "path is not valid Unicode: /\u{fffd}")
        }
        other => panic!("{other:?}"),
    }
    let replies = [
        Reply::File(true, Some("bin".into())),
        Reply::Flag(true),
        Reply::Failed("loop".into()),
    ];
    match prepare_flash_parts(&mut Walk::new(&replies), "/x.bin", Some(0x400000), &config) {
        Err(Stop::Fail(AppError::Usage(message))) => {
            assert_eq!(message, "cannot resolve /x.bin: loop")
        }
        other => panic!("{other:?}"),
    }
}
