//! Whole commands against a board and a file system in memory.
use jog::commands::{
    affirms, check_gpnvm_change, check_server_end, erase_prompt, execute, parse_boot_mode,
    parse_read_range, require_confirmation_terminals, BootMode, Cli, Commands, GpnvmCommand,
};
use jog::config::{ConfigPlace, Environment, RawImage, RawPart, CONFIG_TEMPLATE};
use jog::error::AppError;
use jog::image::ImageFile;
use jog::openocd::{OpenOcdOptions, Transport};
use jog::tcl::{rpc_frame, rpc_wrapper, MARK, RPC_EOM};
use jog::walk::{Op, Reply, Stop};
use std::collections::BTreeMap;
use std::path::Path;

#[test]
fn requires_visible_interactive_confirmation() {
    assert!(require_confirmation_terminals(true, true).is_ok());
    assert!(require_confirmation_terminals(false, true).is_err());
    assert!(require_confirmation_terminals(true, false).is_err());
}

#[test]
fn boot_uses_canonical_values_and_compatible_aliases() {
    for mode in ["flash", "rom", "app", "samba"] {
        assert!(parse_boot_mode(mode).is_some());
    }
    assert!(parse_boot_mode("invalid").is_none());
    for (word, mode) in [
        ("flash", BootMode::Flash),
        ("app", BootMode::Flash),
        ("rom", BootMode::Rom),
        ("samba", BootMode::Rom),
        ("sam-ba", BootMode::Rom),
        ("bootloader", BootMode::Rom),
    ] {
        assert_eq!(parse_boot_mode(word), Some(mode));
    }
    assert_eq!(parse_boot_mode("Flash"), None);
}

/// A board behind a probe, a file system and a terminal.
struct World {
    /// Whether the core runs.
    running: bool,
    exid: u32,
    planes: Vec<u32>,
    gpnvm: u32,
    /// Whether the GPNVM bits stay as they are.
    stuck: bool,
    /// What the flash controller reports next.
    results: Vec<u32>,
    /// Commands that fail, with their output.
    failures: BTreeMap<String, String>,
    /// The output of commands that succeed.
    outputs: BTreeMap<String, String>,
    files: BTreeMap<String, Vec<u8>>,
    /// The configuration file: its path and what it holds.
    config: Option<(String, Vec<RawImage>)>,
    /// Whether a new configuration file can be created.
    config_exists: bool,
    written: Option<String>,
    staged: Vec<Vec<u8>>,
    terminal: bool,
    answer: String,
    exit_code: Option<i32>,
    /// What keeps OpenOCD from starting.
    spawn_error: Option<String>,
    /// What OpenOCD ends with while it starts.
    startup_exit: Option<String>,
    log: Vec<String>,
    clock: u64,
    alive: bool,
    pending: Option<Vec<u8>>,
    // What happened.
    printed: Vec<String>,
    warned: Vec<String>,
    slept: Vec<u64>,
    ran: Vec<String>,
    values: Vec<String>,
    spawns: usize,
    served: Vec<Vec<String>>,
    shutdowns: usize,
}

fn world() -> World {
    World {
        running: true,
        exid: 0x0012_0209,
        planes: vec![512 * 1024, 512 * 1024],
        gpnvm: 2,
        stuck: false,
        results: Vec::new(),
        failures: BTreeMap::new(),
        outputs: BTreeMap::new(),
        files: BTreeMap::new(),
        config: None,
        config_exists: false,
        written: None,
        staged: Vec::new(),
        terminal: true,
        answer: String::new(),
        exit_code: Some(0),
        spawn_error: None,
        startup_exit: None,
        log: Vec::new(),
        clock: 0,
        alive: false,
        pending: None,
        printed: Vec::new(),
        warned: Vec::new(),
        slept: Vec::new(),
        ran: Vec::new(),
        values: Vec::new(),
        spawns: 0,
        served: Vec::new(),
        shutdowns: 0,
    }
}

fn unquote(quoted: &str) -> String {
    let mut text = String::new();
    let mut chars = quoted.chars();
    while let Some(c) = chars.next() {
        if c != '\\' {
            text.push(c);
            continue;
        }
        match chars.next() {
            Some('n') => text.push('\n'),
            Some('r') => text.push('\r'),
            Some('t') => text.push('\t'),
            Some('x') => {
                chars.next();
                chars.next();
                text.push('\u{1a}');
            }
            Some(other) => text.push(other),
            None => panic!("{quoted}"),
        }
    }
    text
}

impl World {
    fn size(&self) -> u32 {
        self.planes.iter().sum()
    }

    fn run_tcl(&mut self, command: &str) -> String {
        self.ran.push(command.to_owned());
        if let Some(output) = self.failures.get(command) {
            return format!("1\n{MARK}\n{output}\n");
        }
        match command {
            "halt" | "reset halt" => self.running = false,
            "resume" | "reset run" => self.running = true,
            "write_memory 0x400e0a04 32 {0x5a000000}" => {
                self.results = vec![0x00aa_0ee0, self.size(), 512, self.planes.len() as u32];
                self.results.extend(&self.planes);
                self.results.extend([self.size() / 8192, 8192]);
            }
            "write_memory 0x400e0a04 32 {0x5a00000d}" => self.results = vec![self.gpnvm],
            _ if self.stuck && command.starts_with("at91sam4") => {}
            "at91sam4 gpnvm set 0" => self.gpnvm |= 1,
            "at91sam4 gpnvm set 1" => self.gpnvm |= 2,
            "at91sam4 gpnvm clear 0" => self.gpnvm &= !1,
            "at91sam4 gpnvm clear 1" => self.gpnvm &= !2,
            _ => {}
        }
        let output = self.outputs.get(command).cloned().unwrap_or_default();
        format!("0\n{MARK}\n{output}\n")
    }

    fn value(&mut self, expression: &str) -> String {
        self.values.push(expression.to_owned());
        match expression {
            "$_TARGETNAME curstate" => {
                if self.running {
                    "running\n".to_owned()
                } else {
                    "halted\n".to_owned()
                }
            }
            "read_memory 0x400e0740 32 2" => format!("0xa3cc0ce0 {:#x}", self.exid),
            "read_memory 0x400e0a0c 32 1" => format!("{:#x}", self.results.remove(0)),
            other => {
                let words: Vec<&str> = other.split(' ').collect();
                assert_eq!(words[0], "read_memory");
                let count: usize = words[3].parse().unwrap();
                let bytes: Vec<String> = (0..count).map(|i| format!("{:#x}", i % 256)).collect();
                bytes.join(" ")
            }
        }
    }

    fn exchange(&mut self, frame: &[u8]) -> Reply {
        assert_eq!(frame.last(), Some(&RPC_EOM));
        let script = String::from_utf8(frame[..frame.len() - 1].to_vec()).unwrap();
        let response = if script == "shutdown" {
            self.alive = false;
            self.shutdowns += 1;
            return Reply::Done;
        } else if let Some(rest) = script.strip_prefix("set __cmd \"") {
            let command = unquote(&rest[..rest.find("\"\nset __rc").unwrap()]);
            assert_eq!(frame, rpc_frame(&rpc_wrapper(&command)));
            self.run_tcl(&command)
        } else {
            self.value(&script)
        };
        let mut bytes = response.into_bytes();
        bytes.push(RPC_EOM);
        self.pending = Some(bytes);
        Reply::Done
    }

    fn reply(&mut self, op: &Op) -> Reply {
        let extension = |path: &str| {
            Path::new(path)
                .extension()
                .and_then(|extension| extension.to_str())
                .map(str::to_owned)
        };
        match op {
            Op::Print(line) => {
                self.printed.push(line.clone());
                Reply::Done
            }
            Op::Warn(line) => {
                self.warned.push(line.clone());
                Reply::Done
            }
            Op::Sleep(milliseconds) => {
                self.slept.push(*milliseconds);
                self.clock += milliseconds;
                Reply::Done
            }
            Op::Clock => Reply::Number(self.clock),
            Op::ReservePort => Reply::Port(4444),
            Op::Spawn(_) => {
                self.spawns += 1;
                match &self.spawn_error {
                    Some(error) => Reply::Failed(error.clone()),
                    None => {
                        self.alive = true;
                        Reply::Done
                    }
                }
            }
            Op::Serve(args) => {
                self.served.push(args.clone());
                Reply::Ended(self.exit_code)
            }
            Op::Child => match &self.startup_exit {
                Some(status) => Reply::Exited(status.clone()),
                None if self.alive => Reply::Running,
                None => Reply::Exited("exit status: 0".into()),
            },
            Op::Dial(port) => {
                assert_eq!(*port, 4444);
                Reply::Done
            }
            Op::SetTimeouts | Op::HangUp | Op::Kill => Reply::Done,
            Op::Send(frame) => self.exchange(frame),
            Op::Receive => Reply::Bytes(self.pending.take().unwrap()),
            Op::Log => Reply::Lines(self.log.clone()),
            Op::InputIsTerminal | Op::ErrorIsTerminal => Reply::Flag(self.terminal),
            Op::Prompt(text) => {
                self.warned.push(text.clone());
                Reply::Done
            }
            Op::ReadLine => Reply::Text(self.answer.clone()),
            Op::FindExecutable => Reply::Flag(true),
            Op::FindCurrentDirectory => Reply::Done,
            Op::ReadEnvironment => Reply::Environment(Environment {
                xdg: Some("/user-config".into()),
                home: None,
                appdata: None,
                windows: false,
            }),
            Op::SamePath(_, _) => Reply::Flag(false),
            Op::FindConfig(ConfigPlace::Explicit | ConfigPlace::CurrentDirectory) => {
                Reply::Found(self.config.as_ref().map(|config| config.0.clone()))
            }
            Op::FindConfig(_) => Reply::Found(None),
            Op::ReadConfig(_) => Reply::Text("toml".into()),
            Op::ParseConfig(_, _) => {
                Reply::Images(copies(&self.config.as_ref().unwrap().1))
            }
            Op::ShowConfig(_) => Reply::Text("/user-config/jog/jog.toml".into()),
            Op::ShowConfigDirectory(ConfigPlace::Xdg) => Reply::Text("/user-config/jog".into()),
            Op::ShowParent(_) => Reply::Found(Some("/user-config/jog".into())),
            Op::CreateParent(_) => Reply::Done,
            Op::CreateConfig(_) if self.config_exists => Reply::Exists,
            Op::CreateConfig(_) => Reply::Done,
            Op::WriteConfig(_, text) => {
                self.written = Some(text.clone());
                Reply::Done
            }
            Op::Examine(path) => Reply::File(self.files.contains_key(path), extension(path)),
            Op::IsFile(path) => Reply::Flag(self.files.contains_key(path)),
            Op::Resolve(path) => Reply::Path(path.clone(), true),
            Op::MakeAbsolute(path) => Reply::Path(format!("/here/{path}"), true),
            Op::ReadFile(path) => Reply::Bytes(self.files[path].clone()),
            Op::FileSize(path) => Reply::Number(self.files[path].len() as u64),
            Op::Stage(bytes) => {
                self.staged.push(bytes.clone());
                Reply::Path(format!("/staged/{}", self.staged.len() - 1), true)
            }
            other => panic!("{other:?}"),
        }
    }

    /// Runs a command to its end.
    fn execute(&mut self, command: Commands) -> Result<(), AppError> {
        self.execute_cli(&plain(command))
    }

    fn execute_cli(&mut self, cli: &Cli) -> Result<(), AppError> {
        let mut replies = Vec::new();
        loop {
            match execute(cli, &replies) {
                Ok(()) => return Ok(()),
                Err(Stop::Ask(op)) => replies.push(self.reply(&op)),
                Err(Stop::Fail(error)) => return Err(error),
                Err(other) => panic!("{other:?}"),
            }
        }
    }
}

/// A command with the default options.
fn plain(command: Commands) -> Cli {
    Cli {
        options: OpenOcdOptions {
            executable: "/missing-openocd".into(),
            transport: Transport::Swd,
            speed: 400,
            serial: None,
            verbose: false,
        },
        config: None,
        command,
    }
}

fn copies(images: &[RawImage]) -> Vec<RawImage> {
    images
        .iter()
        .map(|image| RawImage {
            name: image.name.clone(),
            description: image.description.clone(),
            parts: image
                .parts
                .iter()
                .map(|part| raw_part(&part.file.path, part.addr))
                .collect(),
        })
        .collect()
}

fn raw_part(path: &str, addr: Option<u64>) -> RawPart {
    RawPart {
        file: ImageFile {
            path: path.to_owned(),
            extension: Path::new(path)
                .extension()
                .map(|extension| extension.to_str().unwrap().to_owned()),
        },
        addr,
        relative: true,
        joined: format!("config/{path}"),
    }
}

fn expect_error(result: Result<(), AppError>, code: i32, message: &str) {
    let error = result.unwrap_err();
    assert_eq!(error.code(), code, "{error:?}");
    assert!(error.message().contains(message), "{error:?}");
}

fn read(address: &str, length: &str) -> Commands {
    Commands::Read {
        address: address.into(),
        length: length.into(),
        out: None,
    }
}

fn erase(start: Option<&str>, end: Option<&str>, yes: bool) -> Commands {
    Commands::Erase {
        start: start.map(str::to_owned),
        end: end.map(str::to_owned),
        yes,
    }
}

fn flash(target: &str, addr: Option<&str>) -> Commands {
    Commands::Flash {
        target: target.to_owned(),
        addr: addr.map(str::to_owned),
        verify: true,
        run_after: true,
    }
}

#[test]
fn invalid_commands_are_rejected_before_openocd_is_started() {
    let cases = [
        (
            Commands::Gpnvm(GpnvmCommand::SetBit { bit: 0, force: false }),
            "--force",
        ),
        (
            Commands::Gpnvm(GpnvmCommand::SetBit { bit: 2, force: false }),
            "not defined",
        ),
        (
            Commands::Gpnvm(GpnvmCommand::ClearBit { bit: 2 }),
            "not defined",
        ),
        (read("0x100000000", "4"), "address is too large"),
        (read("0xffffffff", "2"), "32-bit address space"),
        (read("0x400000", "0"), "length must be positive"),
        (erase(Some("0x100"), Some("0x100"), true), "must be below"),
        (erase(None, None, false), "--yes"),
        (
            flash("missing-image", None),
            "not an existing file or named image",
        ),
    ];
    for (command, message) in cases {
        let mut world = world();
        world.terminal = false;
        expect_error(world.execute(command), 2, message);
        assert_eq!(world.spawns, 0);
    }
}

#[test]
fn lists_split_image_from_config_relative_paths() {
    let mut world = world();
    world.config = Some((
        "config/images.toml".into(),
        vec![RawImage {
            name: "bootloader".into(),
            description: Some("Two parts".into()),
            parts: vec![
                raw_part("pt1.bin", Some(0x400000)),
                raw_part("pt2.bin", Some(0x47a000)),
            ],
        }],
    ));
    world.files.insert("config/pt1.bin".into(), vec![1, 2, 3, 4]);
    world.execute(Commands::Images).unwrap();
    let stdout = world.printed.join("\n");
    assert!(stdout.contains("bootloader - Two parts"), "{stdout}");
    assert!(stdout.contains("0x00400000"), "{stdout}");
    assert!(stdout.contains("0x0047a000"), "{stdout}");
    let first = stdout
        .lines()
        .find(|line| line.contains("pt1.bin"))
        .unwrap();
    let second = stdout
        .lines()
        .find(|line| line.contains("pt2.bin"))
        .unwrap();
    assert!(!first.contains("missing"), "{stdout}");
    assert!(second.contains("missing"), "{stdout}");
    expect_error(
        world.execute(flash("bootloader", None)),
        2,
        "image file does not exist",
    );
    assert_eq!(world.spawns, 0);
}

#[test]
fn lists_addresses_aligned_with_images_that_have_their_own() {
    let mut world = world();
    world.config = Some((
        "jog.toml".into(),
        vec![RawImage {
            name: "app".into(),
            description: None,
            parts: vec![raw_part("a.elf", None), raw_part("b.bin", Some(0x10))],
        }],
    ));
    world.files.insert("config/a.elf".into(), vec![]);
    world.files.insert("config/b.bin".into(), vec![]);
    world.execute(Commands::Images).unwrap();
    assert_eq!(
        world.printed,
        [
            "Config: jog.toml",
            "\napp",
            "    in image  config/a.elf",
            "  0x00400010  config/b.bin",
        ]
    );
}

#[test]
fn an_empty_configuration_lists_nothing() {
    let mut empty = world();
    empty.config = Some(("/user-config/jog/jog.toml".into(), vec![]));
    empty.execute(Commands::Images).unwrap();
    assert_eq!(
        empty.printed.join("\n"),
        "Config: /user-config/jog/jog.toml\nNo images are defined."
    );
    let mut none = world();
    none.execute(Commands::Images).unwrap();
    assert_eq!(none.printed, ["Config: none", "No images are defined."]);
}

#[test]
fn config_directory_prints_path_without_loading_config_or_starting_openocd() {
    let mut world = world();
    world.execute(Commands::ConfigDirectory).unwrap();
    assert_eq!(world.printed, ["/user-config/jog"]);
    assert!(world.warned.is_empty());
    assert_eq!(world.spawns, 0);
    assert!(world.written.is_none());
}

#[test]
fn config_init_creates_a_file_and_preserves_an_existing_one() {
    let mut new = world();
    new.execute(Commands::ConfigInit).unwrap();
    assert!(new.printed[0].contains("/user-config/jog/jog.toml"));
    assert_eq!(new.written.as_deref(), Some(CONFIG_TEMPLATE));
    let mut old = world();
    old.config_exists = true;
    expect_error(
        old.execute(Commands::ConfigInit),
        2,
        "configuration file already exists: /user-config/jog/jog.toml",
    );
    assert!(old.written.is_none());
    assert!(old.printed.is_empty());
}

#[test]
fn missing_openocd_reports_runtime_error() {
    let mut world = world();
    world.spawn_error = Some("No such file or directory".into());
    expect_error(world.execute(Commands::Info), 1, "could not start OpenOCD");
    assert_eq!(world.spawns, 1);
}

#[test]
fn failed_openocd_startup_reports_log_and_stops_after_three_attempts() {
    let mut world = world();
    world.startup_exit = Some("exit status: 7".into());
    world.log = vec!["test probe startup failed".into()];
    expect_error(world.execute(Commands::Info), 1, "test probe startup failed");
    assert_eq!(world.spawns, 3);
    assert_eq!(
        world.warned,
        [
            "retrying: link attempt 1 failed; reconnecting in 0.5 s (2/3)",
            "retrying: link attempt 2 failed; reconnecting in 0.5 s (3/3)",
        ]
    );
}

#[test]
fn a_stalled_rom_gets_time_before_the_last_attempt() {
    let mut world = world();
    world
        .failures
        .insert("poll".into(), "DAP transaction stalled (WAIT)".into());
    expect_error(
        world.execute(Commands::Halt),
        1,
        "cannot reach the target: DAP transaction stalled (WAIT)\nCheck target power",
    );
    assert_eq!(world.spawns, 3);
    assert_eq!(world.shutdowns, 3);
    assert!(world.warned[0].contains("in 0.5 s (2/3)"));
    assert!(world.warned[1].contains("in 20 s (3/3)"));
    assert!(world.slept.contains(&20_000));
}

#[test]
fn information_leaves_the_target_as_it_was_found() {
    for running in [true, false] {
        let mut world = world();
        world.running = running;
        world.execute(Commands::Info).unwrap();
        assert_eq!(world.running, running);
        assert_eq!(world.ran.iter().any(|tcl| tcl == "resume"), running);
        assert_eq!(world.shutdowns, 1);
        let text = &world.printed[0];
        assert!(text.contains("  Part          SAM4E8C\n"), "{text}");
        assert!(
            text.contains("  CHIPID        CIDR=0xa3cc0ce0 EXID=0x00120209\n"),
            "{text}"
        );
        assert!(
            text.contains("  Flash         1024 KB, 0x00400000-0x004fffff (2048 pages x 512 B)\n"),
            "{text}"
        );
        assert!(text.contains("  Lock regions  128 x 8 KB\n"), "{text}");
        assert!(text.contains("  SRAM          128 KB at 0x20000000\n"), "{text}");
        let state = if running { "running" } else { "halted" };
        assert!(text.contains(&format!("  Core          Cortex-M4, {state}\n")));
        assert!(text.contains("  Link          SWD @ 400 kHz via Atmel-ICE\n"));
        assert!(!text.contains("note:"), "{text}");
        assert!(text.ends_with("  1  boot_mode  1  boot from Flash"), "{text}");
    }
}

#[test]
fn information_notes_a_flash_size_that_differs() {
    let mut world = world();
    world.planes = vec![512 * 1024];
    world.execute(Commands::Info).unwrap();
    assert!(world.printed[0].contains(
        "\nnote: CHIPID reports 1024 KB of flash, but EEFC reports 512 KB; using EEFC\nGPNVM\n"
    ));
}

#[test]
fn a_wrong_chip_is_left_alone() {
    let mut world = world();
    world.exid = 0x12;
    world
        .files
        .insert("x.bin".into(), vec![1, 2, 3, 4]);
    for command in [
        Commands::Info,
        flash("x.bin", Some("0")),
        erase(None, None, true),
        Commands::Boot { mode: BootMode::Rom, reset: true },
        Commands::Gpnvm(GpnvmCommand::SetBit { bit: 1, force: false }),
        Commands::Reset { halt: false },
        read("0x400000", "4"),
        Commands::Resume,
    ] {
        world.running = false;
        expect_error(
            world.execute(command),
            1,
            "target is not an ATSAM4E8C (EXID 0x00000012)",
        );
    }
    for tcl in &world.ran {
        assert!(tcl == "poll" || tcl == "halt", "{tcl}");
    }
}

#[test]
fn a_failed_command_still_restores_the_target() {
    let mut world = world();
    world.exid = 0x12;
    world.running = true;
    assert!(world.execute(Commands::Info).is_err());
    assert!(world.running);
    assert_eq!(world.shutdowns, 1);
}

#[test]
fn reading_commands_leave_flash_and_gpnvm_bits_alone() {
    let mut world = world();
    for command in [
        Commands::Info,
        Commands::Images,
        Commands::Gpnvm(GpnvmCommand::Show),
        read("0x400000", "4"),
        Commands::Halt,
        Commands::Resume,
        Commands::Gdb { port: 3333 },
        Commands::ConfigDirectory,
        Commands::ConfigInit,
    ] {
        world.execute(command).unwrap();
    }
    assert!(world.ran.contains(&"poll".to_owned()));
    for tcl in &world.ran {
        assert!(
            ["poll", "halt", "resume"].contains(&tcl.as_str())
                || tcl == "write_memory 0x400e0a04 32 {0x5a000000}"
                || tcl == "write_memory 0x400e0a04 32 {0x5a00000d}",
            "{tcl}"
        );
    }
}

#[test]
fn a_command_asks_the_same_of_the_same_replies() {
    let mut world = world();
    world.files.insert("x.bin".into(), vec![1, 2, 3, 4]);
    let cli = plain(flash("x.bin", Some("0")));
    let mut replies = Vec::new();
    let mut asked = Vec::new();
    while let Err(Stop::Ask(op)) = execute(&cli, &replies) {
        asked.push(format!("{op:?}"));
        replies.push(world.reply(&op));
    }
    assert!(execute(&cli, &replies).is_ok());
    for at in 0..asked.len() {
        match execute(&cli, &replies[..at]) {
            Err(Stop::Ask(op)) => assert_eq!(format!("{op:?}"), asked[at]),
            other => panic!("{other:?}"),
        }
    }
}

#[test]
fn one_raw_file_is_written_in_one_go() {
    let mut world = world();
    world.files.insert("x.bin".into(), vec![1, 2, 3, 4]);
    world.outputs.insert(
        "flash write_image erase unlock \"x.bin\" 0x400100 bin".into(),
        "wrote 4 bytes\nin 1 s".into(),
    );
    world.execute(flash("x.bin", Some("0x100"))).unwrap();
    let at = world.ran.iter().position(|tcl| tcl.starts_with("flash")).unwrap();
    assert_eq!(
        &world.ran[at..],
        [
            "flash write_image erase unlock \"x.bin\" 0x400100 bin",
            "verify_image \"x.bin\" 0x400100 bin",
            "reset run",
        ]
    );
    assert_eq!(
        world.printed,
        [
            "Programming x.bin @ 0x00400100...",
            "ok: wrote x.bin @ 0x00400100",
            "  wrote 4 bytes\n  in 1 s",
            "Verifying x.bin...",
            "ok: verified x.bin",
            "ok: reset, running",
        ]
    );
}

#[test]
fn several_files_are_erased_before_they_are_written() {
    let mut world = world();
    world.files.insert("config/a.bin".into(), vec![1, 2, 3, 4]);
    world.files.insert("config/b.bin".into(), vec![5, 6]);
    world.config = Some((
        "jog.toml".into(),
        vec![RawImage {
            name: "both".into(),
            description: None,
            parts: vec![
                raw_part("b.bin", Some(0x20000)),
                raw_part("a.bin", Some(0x400000)),
            ],
        }],
    ));
    world
        .execute(Commands::Flash {
            target: "both".into(),
            addr: None,
            verify: false,
            run_after: false,
        })
        .unwrap();
    let at = world.ran.iter().position(|tcl| tcl.starts_with("flash")).unwrap();
    assert_eq!(
        &world.ran[at..],
        [
            "flash erase_address pad unlock 0x400000 0x4",
            "flash erase_address pad unlock 0x420000 0x2",
            "flash write_image unlock \"config/b.bin\" 0x420000 bin",
            "flash write_image unlock \"config/a.bin\" 0x400000 bin",
        ]
    );
    assert!(!world.running);
}

#[test]
fn a_bad_image_is_rejected_before_anything_is_erased() {
    let mut world = world();
    world.files.insert("big.bin".into(), vec![0; 1024 * 1024 + 1]);
    world.files.insert("bad.hex".into(), b":00000001FE\n".to_vec());
    world.files.insert("bad.elf".into(), vec![0; 64]);
    for (command, message) in [
        (flash("big.bin", Some("0")), "runs past flash end"),
        (flash("bad.hex", None), "invalid Intel HEX bad.hex"),
        (flash("bad.elf", None), "invalid ELF bad.elf"),
    ] {
        expect_error(world.execute(command), 2, message);
    }
    for tcl in &world.ran {
        assert!(
            tcl == "poll" || tcl == "halt" || tcl.starts_with("write_memory 0x400e0a04 32 {0x5a"),
            "{tcl}"
        );
    }
}

#[test]
fn writing_does_not_change_the_boot_source() {
    for gpnvm in [0, 2] {
        let mut world = world();
        world.gpnvm = gpnvm;
        world.files.insert("x.bin".into(), vec![1, 2, 3, 4]);
        world.execute(flash("x.bin", Some("0"))).unwrap();
        assert_eq!(world.gpnvm, gpnvm);
        assert!(!world.ran.iter().any(|tcl| tcl.contains("gpnvm")));
    }
}

#[test]
fn a_failed_write_is_told_to_be_incomplete() {
    let mut world = world();
    world.files.insert("x.bin".into(), vec![1, 2, 3, 4]);
    world.failures.insert(
        "flash write_image erase unlock \"x.bin\" 0x400000 bin".into(),
        "timeout".into(),
    );
    let error = world.execute(flash("x.bin", Some("0"))).unwrap_err();
    assert_eq!(error.code(), 1);
    assert!(error.message().starts_with("timeout\n"), "{error:?}");
    assert_eq!(world.shutdowns, 1);
}

#[test]
fn boot_mode_is_changed_and_read_back() {
    let mut rom = world();
    rom.execute(Commands::Boot { mode: BootMode::Rom, reset: true }).unwrap();
    assert_eq!(rom.gpnvm, 0);
    assert_eq!(
        rom.printed,
        ["ok: boot source -> ROM (SAM-BA bootloader)", "ok: device reset"]
    );
    let mut same = world();
    same.execute(Commands::Boot { mode: BootMode::Flash, reset: false }).unwrap();
    assert_eq!(same.printed, ["ok: already booting from Flash"]);
    assert!(same.running);
    assert!(!same.ran.iter().any(|tcl| tcl.contains("gpnvm") || tcl.contains("reset")));
    let mut flash = world();
    flash.gpnvm = 0;
    flash.execute(Commands::Boot { mode: BootMode::Flash, reset: false }).unwrap();
    assert_eq!(flash.gpnvm, 2);
    assert_eq!(flash.printed, ["ok: boot source -> Flash (application)"]);
}

#[test]
fn a_boot_source_that_does_not_change_is_noticed() {
    for (gpnvm, mode, tcl) in [
        (0, BootMode::Flash, "at91sam4 gpnvm set 1"),
        (2, BootMode::Rom, "at91sam4 gpnvm clear 1"),
    ] {
        for reset in [false, true] {
            let mut stuck = world();
            stuck.gpnvm = gpnvm;
            stuck.stuck = true;
            expect_error(
                stuck.execute(Commands::Boot { mode, reset }),
                1,
                "GPNVM1 did not change",
            );
            assert_eq!(stuck.gpnvm, gpnvm);
            assert!(stuck.ran.contains(&tcl.to_owned()));
            assert!(!stuck.ran.iter().any(|tcl| tcl.starts_with("reset")));
            assert!(stuck.printed.is_empty());
            // Without a reset the target is left as it was found.
            assert_eq!(stuck.running, !reset);
        }
    }
}

#[test]
fn a_gpnvm_bit_that_does_not_change_is_noticed() {
    let mut stuck = world();
    stuck.gpnvm = 0;
    stuck.stuck = true;
    expect_error(
        stuck.execute(Commands::Gpnvm(GpnvmCommand::SetBit { bit: 1, force: false })),
        1,
        "GPNVM1 is still 0, expected 1",
    );
    assert!(stuck.printed.is_empty());
}

#[test]
fn gpnvm_bits_are_shown_and_changed() {
    let mut shown = world();
    shown.execute(Commands::Gpnvm(GpnvmCommand::Show)).unwrap();
    assert_eq!(
        shown.printed,
        ["GPNVM\n  0  security   0  unlocked\n  1  boot_mode  1  boot from Flash"]
    );
    assert!(shown.running);
    let mut cleared = world();
    cleared
        .execute(Commands::Gpnvm(GpnvmCommand::ClearBit { bit: 1 }))
        .unwrap();
    assert_eq!(cleared.gpnvm, 0);
    assert!(cleared.printed[0].starts_with("ok: GPNVM1 (boot_mode): 1 -> 0\nGPNVM\n"));
    assert!(cleared.printed[0].ends_with("Run: jog reset"));
    let mut set = world();
    set.execute(Commands::Gpnvm(GpnvmCommand::SetBit { bit: 0, force: true }))
        .unwrap();
    assert_eq!(set.gpnvm, 3);
    assert!(set.printed[0].starts_with("ok: GPNVM0 (security): 0 -> 1\n"));
    assert!(!set.printed[0].contains("Run:"));
}

#[test]
fn bit_0_is_never_set_without_force() {
    assert!(check_gpnvm_change(0, 1, true).is_ok());
    assert!(check_gpnvm_change(0, 0, false).is_ok());
    assert!(check_gpnvm_change(1, 1, false).is_ok());
    let mut world = world();
    expect_error(
        world.execute(Commands::Gpnvm(GpnvmCommand::SetBit { bit: 0, force: false })),
        2,
        "setting GPNVM bit 0 disables JTAG and SWD",
    );
    assert_eq!(world.gpnvm, 2);
    assert!(world.ran.is_empty());
}

#[test]
fn an_erase_needs_consent() {
    for (answer, erased) in [
        ("y\n", true),
        (" YES \n", true),
        ("n\n", false),
        ("\n", false),
        ("yess\n", false),
    ] {
        assert_eq!(affirms(answer), erased);
        let mut world = world();
        world.answer = answer.into();
        let result = world.execute(erase(None, None, false));
        assert_eq!(world.warned, ["Erase all target flash? [y/N] "]);
        assert_eq!(
            world.ran.iter().any(|tcl| tcl == "flash erase_sector 0 0 last"),
            erased
        );
        if erased {
            result.unwrap();
            assert_eq!(
                world.printed,
                [
                    "Erasing the entire 1024 KB flash...",
                    "ok: erased the entire 1024 KB flash",
                ]
            );
        } else {
            assert_eq!(result.unwrap_err().code(), 1);
            assert_eq!(world.printed, ["Canceled. No flash was erased."]);
            assert_eq!(world.spawns, 0);
        }
    }
}

#[test]
fn a_range_is_erased_up_to_its_end() {
    let mut world = world();
    world.execute(erase(Some("0"), Some("0x8000"), true)).unwrap();
    assert_eq!(
        world.ran.last().unwrap(),
        "flash erase_address 0x400000 0x8000"
    );
    assert_eq!(
        world.printed[1],
        "ok: erased flash 0x00400000-0x00407fff (32 KB)"
    );
    expect_error(
        world.execute(erase(Some("0x500000"), None, true)),
        2,
        "0x00500000-0x00500000 is outside flash (0x00400000-0x00500000)",
    );
    expect_error(
        world.execute(erase(None, Some("0x500001"), true)),
        2,
        "0x00400000-0x00500001 is outside flash",
    );
}

#[test]
fn erase_questions_name_the_range() {
    assert_eq!(erase_prompt(None, None).unwrap(), "Erase all target flash?");
    assert_eq!(
        erase_prompt(Some(0x400000), None).unwrap(),
        "Erase flash from 0x00400000 to the flash end?"
    );
    assert_eq!(
        erase_prompt(None, Some(0x400010)).unwrap(),
        "Erase flash before 0x00400010?"
    );
    assert_eq!(
        erase_prompt(Some(0x400000), Some(0x400010)).unwrap(),
        "Erase flash 0x00400000-0x0040000f?"
    );
    assert_eq!(
        erase_prompt(Some(1), Some(1)).unwrap_err().message(),
        "erase start 0x00000001 must be below end 0x00000001"
    );
}

#[test]
fn memory_is_shown_or_saved() {
    let mut shown = world();
    shown.execute(read("0x400001", "18")).unwrap();
    assert!(shown.values.contains(&"read_memory 0x400001 8 18".to_owned()));
    assert_eq!(
        shown.printed[0].lines().next().unwrap(),
        "00400001  00 01 02 03 04 05 06 07 08 09 0a 0b 0c 0d 0e 0f  |................|"
    );
    assert_eq!(shown.printed[0].lines().count(), 2);
    assert!(shown.running);
    let mut saved = world();
    saved
        .execute(Commands::Read {
            address: "0x400000".into(),
            length: "256".into(),
            out: Some("readback.bin".into()),
        })
        .unwrap();
    assert!(saved
        .ran
        .contains(&"dump_image \"/here/readback.bin\" 0x400000 0x100".to_owned()));
    assert_eq!(
        saved.printed,
        [
            "Reading 256 bytes from 0x00400000...",
            "ok: wrote 256 bytes to /here/readback.bin",
        ]
    );
    assert!(saved.running);
}

#[test]
fn the_last_address_can_be_read() {
    assert_eq!(parse_read_range("0xffffffff", "1").unwrap(), (0xffff_ffff, 1));
    assert_eq!(parse_read_range("0", "4G").unwrap(), (0, 1 << 32));
    for (address, length) in [("0xffffffff", "2"), ("1", "4G"), ("0", "0x100000001")] {
        assert!(parse_read_range(address, length).is_err());
    }
}

#[test]
fn the_core_is_reset_halted_and_resumed() {
    let mut world = world();
    world.execute(Commands::Reset { halt: true }).unwrap();
    assert!(!world.running);
    world.execute(Commands::Resume).unwrap();
    assert!(world.running);
    world.execute(Commands::Halt).unwrap();
    assert!(!world.running);
    world.execute(Commands::Reset { halt: false }).unwrap();
    assert!(world.running);
    assert_eq!(
        world.printed,
        [
            "ok: reset (halted)",
            "ok: running",
            "ok: core halted",
            "ok: reset (running)",
        ]
    );
}

#[test]
fn a_gdb_server_gets_the_probe_for_itself() {
    let mut world = world();
    world.execute(Commands::Gdb { port: 3333 }).unwrap();
    assert_eq!(world.shutdowns, 1);
    assert!(world.running);
    assert_eq!(world.served.len(), 1);
    assert!(world.served[0].contains(&"gdb_port 3333".to_owned()));
    assert!(world.served[0].contains(&"tcl_port disabled".to_owned()));
    assert_eq!(
        world.printed,
        ["GDB server: localhost:3333\narm-none-eabi-gdb -ex \"target extended-remote :3333\" your.elf"]
    );
    world.exit_code = Some(3);
    assert_eq!(world.execute(Commands::Gdb { port: 1 }).unwrap_err().code(), 3);
    world.exit_code = None;
    expect_error(
        world.execute(Commands::Gdb { port: 1 }),
        1,
        "OpenOCD ended because of a signal",
    );
    assert!(check_server_end(Some(0)).is_ok());
}

#[test]
fn raw_commands_are_run_as_they_are() {
    let mut world = world();
    world.outputs.insert("version [x] \"y\"".into(), "0.12".into());
    world
        .execute(Commands::Raw {
            command: vec!["version".into(), "[x]".into(), "\"y\"".into()],
        })
        .unwrap();
    assert_eq!(world.warned, ["warning: raw bypasses all jog safety checks"]);
    assert_eq!(world.printed, ["0.12"]);
    assert_eq!(world.ran.last().unwrap(), "version [x] \"y\"");
}

#[test]
fn a_serial_number_with_a_null_byte_is_rejected() {
    let mut world = world();
    let cli = Cli {
        options: OpenOcdOptions {
            executable: "openocd".into(),
            transport: Transport::Jtag,
            speed: 400,
            serial: Some("A\0B".into()),
            verbose: false,
        },
        config: None,
        command: Commands::Info,
    };
    expect_error(
        world.execute_cli(&cli),
        2,
        "serial number contains a null byte",
    );
    assert_eq!(world.spawns, 0);
}

#[test]
fn a_target_that_cannot_be_halted_is_left_running() {
    let mut world = world();
    world.failures.insert("halt".into(), "no".into());
    expect_error(world.execute(Commands::Info), 1, "cannot reach the target: no");
    assert_eq!(world.spawns, 3);
    assert!(world.running);
    assert_eq!(world.ran.iter().filter(|tcl| *tcl == "resume").count(), 3);
}

#[test]
fn a_failed_restore_is_not_retried() {
    let mut world = world();
    world.failures.insert("halt".into(), "no".into());
    world.failures.insert("resume".into(), "stuck".into());
    expect_error(
        world.execute(Commands::Info),
        1,
        "could not restore the target entry state; the target can remain halted: stuck",
    );
    assert_eq!(world.spawns, 1);
    assert_eq!(world.shutdowns, 1);
    assert_eq!(world.ran.iter().filter(|tcl| *tcl == "resume").count(), 2);
}
