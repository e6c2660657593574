//! OpenOCD: how it is started, and what is said to it.
use jog::error::{AppError, SessionError};
use jog::openocd::{
    format_log_tail, openocd_args, openocd_start_error, path_string, push_log_line, retry_delay,
    validate_tcl_value, OpenOcdOptions, Transport, LOG_LINES,
};
use jog::session::{
    connect, connect_read_only, read32, read8, rpc, run, value, write32, Session,
};
use jog::tcl::{
    parse_memory, parse_run_response, rpc_frame, rpc_wrapper, tcl_literal, MARK, RPC_EOM,
};
use jog::walk::{Op, Reply, Stop, Walk};
use std::collections::VecDeque;
use std::time::Duration;

#[test]
fn allows_rom_startup_only_after_repeated_debug_stalls() {
    let retry_delay =
        |message: &str, attempt: u32| Duration::from_millis(retry_delay(message, attempt));
    assert_eq!(
        retry_delay("stalled AP operation", 1),
        Duration::from_millis(500)
    );
    assert_eq!(
        retry_delay("stalled AP operation", 2),
        Duration::from_secs(20)
    );
    assert_eq!(
        retry_delay("Timeout during WAIT recovery", 2),
        Duration::from_secs(20)
    );
    assert_eq!(
        retry_delay("probe not found", 2),
        Duration::from_millis(500)
    );
}

#[test]
fn main_quotes_tcl_literals_without_rpc_end_bytes() {
    assert_eq!(
        tcl_literal("C:\\a $b [x] \"q\""),
        "\"C:\\\\a \\$b \\[x\\] \\\"q\\\"\""
    );
    let wrapper = rpc_wrapper("echo before\u{001a}after");
    assert!(!wrapper.as_bytes().contains(&RPC_EOM));
    assert!(wrapper.contains("\\x1a"));
}

#[test]
fn openocd_quotes_tcl_literals_without_rpc_end_bytes() {
    assert_eq!(
        tcl_literal("C:\\a $b [x] \"q\"\r\n\t"),
        r#""C:\\a \$b \[x\] \"q\"\r\n\t""#
    );
    let wrapper = rpc_wrapper("echo before\u{001a}after");
    assert!(!wrapper.as_bytes().contains(&RPC_EOM));
    assert!(wrapper.contains("\\x1a"));
}

#[test]
fn requests_end_with_the_only_end_byte() {
    for command in ["", "halt", "echo \u{1a}", "é\u{1a}\u{1a}ß", "\u{10ffff}"] {
        let frame = rpc_frame(&rpc_wrapper(command));
        let ends: Vec<usize> = (0..frame.len()).filter(|at| frame[*at] == RPC_EOM).collect();
        assert_eq!(ends, [frame.len() - 1]);
    }
    assert_eq!(rpc_frame("aé"), [b'a', 0xc3, 0xa9, 0x1a]);
}

#[test]
fn different_texts_are_quoted_differently() {
    let texts = ["", "\\", "\\n", "\n", "n", "\"", "$", "\\$", "\u{1a}", "\\x1a", "x1a", "[", "]"];
    for a in texts {
        for b in texts {
            assert_eq!(tcl_literal(a) == tcl_literal(b), a == b);
        }
    }
}

#[test]
fn different_commands_are_sent_as_different_bytes() {
    let commands = ["", "halt", "resume", "reset run", "shutdown", "a\u{1a}", "a\\x1a", "é", "e"];
    for a in commands {
        for b in commands {
            let same = rpc_frame(&rpc_wrapper(a)) == rpc_frame(&rpc_wrapper(b));
            assert_eq!(same, a == b);
            assert_ne!(rpc_frame(&rpc_wrapper(a)), rpc_frame(b));
        }
    }
}

#[test]
fn does_not_retry_a_failed_state_restore() {
    let error = SessionError::restore("lost response");
    assert!(!error.retryable);
    assert!(error.message.contains("target can remain halted"));
}

#[test]
fn tells_which_errors_a_new_connection_can_help() {
    let error = SessionError::retryable("dropped packet");
    assert!(error.retryable);
    assert_eq!(error.message, "dropped packet");
    let error = SessionError::fatal("no probe");
    assert!(!error.retryable);
    assert_eq!(error.message, "no probe");
}

#[test]
fn parses_captured_openocd_responses() {
    assert_eq!(
        parse_run_response(&format!("0\n{MARK}\n output \n"), "halt")
            .unwrap_or_else(|error| panic!("{}", error.message)),
        "output"
    );
    assert!(parse_run_response(&format!("1\n{MARK}\nfailed"), "halt").is_err());
    assert!(parse_run_response("unframed", "halt").is_err());
}

#[test]
fn names_what_is_wrong_with_a_response() {
    let message = |raw: &str| {
        let error = parse_run_response(raw, "halt").unwrap_err();
        assert!(error.retryable);
        error.message
    };
    assert_eq!(message("x"), "invalid response from OpenOCD: x");
    assert_eq!(
        message(&format!("1\n{MARK}\n \n")),
        "OpenOCD command failed: halt"
    );
    assert_eq!(message(&format!("1\n{MARK}\n no target\n")), "no target");
    let twice = format!("0\n{MARK}\na\n{MARK}\nb");
    assert_eq!(
        parse_run_response(&twice, "halt").unwrap(),
        format!("a\n{MARK}\nb")
    );
}

fn options(transport: Transport, serial: Option<&str>) -> OpenOcdOptions {
    OpenOcdOptions {
        executable: "openocd".into(),
        transport,
        speed: 400,
        serial: serial.map(str::to_owned),
        verbose: false,
    }
}

#[test]
fn main_builds_embedded_openocd_config() {
    let options = options(Transport::Swd, Some("A $B"));
    let text = openocd_args(&options, Some(1234), None).join(" ");
    assert!(text.contains("source [find target/at91sam4XXX.cfg]"));
    assert!(text.contains("adapter serial \"A \\$B\""));
    assert!(text.contains("tcl_port 1234"));
    assert!(text.contains("gdb_port disabled"));
    assert!(!text.contains(" -f "));
}

#[test]
fn openocd_builds_embedded_openocd_config() {
    let options = options(Transport::Swd, Some("A $B"));
    let text = openocd_args(&options, Some(1234), None).join(" ");
    assert!(text.contains("source [find target/at91sam4XXX.cfg]"));
    assert!(text.contains("adapter serial \"A \\$B\""));
    assert!(text.contains("bindto 127.0.0.1"));
    assert!(text.contains("tcl_port 1234"));
    assert!(text.contains("gdb_port disabled"));
    assert!(!text.contains(" -f "));
}

#[test]
fn hands_each_startup_command_over_by_itself() {
    let args = openocd_args(&options(Transport::Jtag, None), None, Some(3333));
    assert_eq!(args.len(), 28);
    for pair in args.chunks(2) {
        assert_eq!(pair[0], "-c");
    }
    let commands: Vec<&str> = args.iter().skip(1).step_by(2).map(String::as_str).collect();
    assert_eq!(commands[0], "adapter driver cmsis-dap");
    assert_eq!(commands[2], "transport select jtag");
    assert_eq!(commands[9], "adapter speed 400");
    assert_eq!(commands[11], "tcl_port disabled");
    assert_eq!(commands[12], "gdb_port 3333");
    assert_eq!(commands[13], "telnet_port disabled");
}

#[test]
fn keeps_the_last_lines_of_the_log() {
    let mut log = VecDeque::new();
    for number in 0..100 {
        push_log_line(&mut log, format!("line {number}"));
    }
    assert_eq!(log.len(), LOG_LINES);
    let kept: Vec<String> = log.into_iter().collect();
    assert_eq!(kept[0], "line 36");
    assert_eq!(kept[63], "line 99");
    assert_eq!(format_log_tail(&kept, 2), "\n  line 98\n  line 99");
    assert_eq!(format_log_tail(&kept[..1].to_vec(), 8), "\n  line 36");
    assert_eq!(format_log_tail(&Vec::new(), 8), "");
    assert_eq!(format_log_tail(&kept, 0), "");
}

#[test]
fn names_what_cannot_be_handed_over() {
    assert!(validate_tcl_value(None, "serial number").is_ok());
    assert!(validate_tcl_value(Some("A1"), "serial number").is_ok());
    match validate_tcl_value(Some("A\0"), "serial number") {
        Err(AppError::Usage(message)) => assert_eq!(message, "serial number contains a null byte"),
        other => panic!("{other:?}"),
    }
    assert_eq!(path_string("/a/b", true).unwrap(), "/a/b");
    match path_string("/a/\u{fffd}", false) {
        Err(AppError::Usage(message)) => {
            assert_eq!(message, "path is not valid Unicode: /a/\u{fffd}")
        }
        other => panic!("{other:?}"),
    }
    match openocd_start_error("/bin/none", "no such file") {
        AppError::Runtime(message) => assert_eq!(
            message,
            "could not start OpenOCD '/bin/none': no such file; install OpenOCD or use --openocd PATH"
        ),
        other => panic!("{other:?}"),
    }
}

#[test]
fn errors_have_exit_codes_and_texts() {
    let usage = AppError::Usage("bad".into());
    let runtime = AppError::Runtime("broken".into());
    assert_eq!((usage.code(), usage.message()), (2, "bad".to_owned()));
    assert_eq!((runtime.code(), runtime.message()), (1, "broken".to_owned()));
    let exit = AppError::Exit(7);
    assert_eq!((exit.code(), exit.message()), (7, String::new()));
    let incomplete = runtime.flash_incomplete();
    assert_eq!(incomplete.code(), 1);
    assert!(incomplete.message().starts_with("broken\n"));
    assert_ne!(incomplete.message(), "broken\n");
    assert_eq!(AppError::Exit(7).flash_incomplete().code(), 7);
}

/// What is sent when the replies so far are `replies`.
fn sent<T>(replies: &[Reply], step: impl Fn(&mut Walk) -> Result<T, Stop>) -> Vec<u8> {
    match step(&mut Walk::new(replies)) {
        Err(Stop::Ask(Op::Send(bytes))) => bytes,
        Err(other) => panic!("{other:?}"),
        Ok(_) => panic!("nothing was sent"),
    }
}

fn bytes(text: &str) -> Reply {
    Reply::Bytes(text.as_bytes().to_vec())
}

#[test]
fn restores_running_entry_state_with_a_checked_response() {
    let restore = |walk: &mut Walk| {
        let mut session = Session {
            entry_state: "running".into(),
            resume_on_drop: true,
        };
        session.restore_entry_state(walk)?;
        assert!(!session.resume_on_drop);
        Ok(())
    };
    let mut replies = Vec::new();
    let request = sent(&replies, restore);
    assert!(String::from_utf8_lossy(&request).contains("resume"));
    replies.push(Reply::Done);
    replies.push(bytes(&format!("0\n{MARK}\n\x1a")));
    let request = sent(&replies, restore);
    assert_eq!(&request[..request.len() - 1], b"$_TARGETNAME curstate");
    replies.push(Reply::Done);
    replies.push(bytes("running\x1a"));
    assert!(restore(&mut Walk::new(&replies)).is_ok());
}

#[test]
fn reports_a_target_that_does_not_resume() {
    let mut session = Session {
        entry_state: "running".into(),
        resume_on_drop: true,
    };
    let replies = [
        Reply::Done,
        bytes(&format!("0\n{MARK}\n\x1a")),
        Reply::Done,
        bytes("halted\x1a"),
    ];
    match session.restore_entry_state(&mut Walk::new(&replies)) {
        Err(Stop::Fail(AppError::Runtime(message))) => assert_eq!(
            message,
            "could not restore the target entry state; the target can remain halted: expected running, got halted"
        ),
        other => panic!("{other:?}"),
    }
    assert!(session.resume_on_drop);
}

fn memory_reply(response: &str) -> [Reply; 2] {
    [Reply::Done, bytes(&format!("{response}\x1a"))]
}

fn runtime_message<T: std::fmt::Debug>(result: Result<T, Stop>) -> String {
    match result {
        Err(Stop::Fail(AppError::Runtime(message))) => message,
        other => panic!("{other:?}"),
    }
}

#[test]
fn reads_exact_bytes_at_an_unaligned_address() {
    let request = sent(&[], |walk| read8(walk, 0x400001, 3));
    assert_eq!(&request[..request.len() - 1], b"read_memory 0x400001 8 3");
    let replies = memory_reply("0x00 127 0xff");
    let bytes = read8(&mut Walk::new(&replies), 0x400001, 3).unwrap();
    assert_eq!(bytes, [0, 127, 255]);
}

#[test]
fn rejects_incomplete_byte_data() {
    let request = sent(&[], |walk| read8(walk, 0x400001, 3));
    assert_eq!(&request[..request.len() - 1], b"read_memory 0x400001 8 3");
    let replies = memory_reply("0x01 2");
    let error = runtime_message(read8(&mut Walk::new(&replies), 0x400001, 3));
    assert!(error.contains("expected 3 values, got 2"));
}

#[test]
fn rejects_values_outside_a_byte() {
    let request = sent(&[], |walk| read8(walk, 0x400001, 1));
    assert_eq!(&request[..request.len() - 1], b"read_memory 0x400001 8 1");
    let replies = memory_reply("0x100");
    let error = runtime_message(read8(&mut Walk::new(&replies), 0x400001, 1));
    assert!(error.contains("invalid byte from OpenOCD: 256"));
}

#[test]
fn rejects_incomplete_word_data() {
    let request = sent(&[], |walk| read32(walk, 0x400000, 2));
    assert_eq!(&request[..request.len() - 1], b"read_memory 0x400000 32 2");
    let replies = memory_reply("0x12345678");
    let error = runtime_message(read32(&mut Walk::new(&replies), 0x400000, 2));
    assert!(error.contains("expected 2 values, got 1"));
}

#[test]
fn rejects_what_is_no_word() {
    for bad in ["0x", "x", "-1", "0x100000000", "4294967296", "1.5"] {
        match parse_memory(bad, 1) {
            Err(AppError::Runtime(message)) => {
                assert_eq!(message, format!("invalid word from OpenOCD: {bad}"))
            }
            other => panic!("{other:?}"),
        }
    }
    assert_eq!(
        parse_memory(" 0xffffffff\n4294967295 7 ", 3).unwrap(),
        [u32::MAX, u32::MAX, 7]
    );
}

#[test]
fn writes_words_in_hexadecimal() {
    let request = sent(&[], |walk| write32(walk, 0x400e0a04, &[0x5a000000, 1]));
    let expected = rpc_frame(&rpc_wrapper(
        "write_memory 0x400e0a04 32 {0x5a000000 0x1}",
    ));
    assert_eq!(request, expected);
}

#[test]
fn replies_can_come_in_pieces() {
    let whole = [Reply::Done, bytes("  running\n\x1a")];
    let pieces = [Reply::Done, bytes(" "), bytes(" runn"), bytes("ing\n"), bytes("\x1a")];
    assert_eq!(value(&mut Walk::new(&whole), "x").unwrap(), "running");
    assert_eq!(value(&mut Walk::new(&pieces), "x").unwrap(), "running");
    assert_eq!(rpc(&mut Walk::new(&pieces), "x").unwrap(), "  running\n");
    for given in 0..4 {
        match value(&mut Walk::new(&pieces[..given + 1]), "x") {
            Err(Stop::Ask(Op::Receive)) => {}
            other => panic!("{other:?}"),
        }
    }
}

#[test]
fn bytes_that_are_no_text_are_replaced() {
    let replies = [
        Reply::Done,
        Reply::Bytes(vec![b'a', 0xff, b'b', 0xc3, 0xa9, RPC_EOM]),
    ];
    assert_eq!(
        value(&mut Walk::new(&replies), "x").unwrap(),
        "a\u{fffd}b\u{e9}"
    );
}

#[test]
fn a_lost_link_is_told_with_the_log() {
    let log = || Reply::Lines(vec!["one".into(), "two".into()]);
    let cases = [
        (
            vec![Reply::Failed("broken pipe".into()), log()],
            "lost the link to OpenOCD (broken pipe)\n  one\n  two",
        ),
        (
            vec![Reply::Done, Reply::Failed("timed out".into()), log()],
            "lost the link to OpenOCD (timed out)\n  one\n  two",
        ),
        (
            vec![Reply::Done, Reply::Bytes(vec![]), log()],
            "OpenOCD closed the connection\n  one\n  two",
        ),
    ];
    for (replies, message) in cases {
        assert_eq!(runtime_message(run(&mut Walk::new(&replies), "halt")), message);
        match rpc(&mut Walk::new(&replies), "halt") {
            Err(Stop::Link(error)) => assert!(error.retryable),
            other => panic!("{other:?}"),
        }
    }
}

#[test]
fn a_reply_that_does_not_fit_is_noticed() {
    let replies = [Reply::Number(1)];
    match run(&mut Walk::new(&replies), "halt") {
        Err(Stop::Stray) => {}
        other => panic!("{other:?}"),
    }
}

/// The replies for a start of OpenOCD that succeeds.
fn started() -> Vec<Reply> {
    vec![
        Reply::Port(1234),
        Reply::Done,
        Reply::Number(0),
        Reply::Number(10),
        Reply::Running,
        Reply::Done,
        Reply::Done,
    ]
}

/// The reply to a wrapped command that succeeds.
fn ran() -> [Reply; 2] {
    [Reply::Done, bytes(&format!("0\n{MARK}\n\x1a"))]
}

#[test]
fn finds_and_halts_the_target() {
    for (state, restored) in [("running", true), ("halted", false)] {
        let mut replies = started();
        replies.extend(ran());
        replies.extend([Reply::Done, bytes(&format!("{state}\x1a"))]);
        replies.extend(ran());
        let options = options(Transport::Swd, None);
        let session = connect_read_only(&mut Walk::new(&replies), &options).unwrap();
        assert_eq!(session.entry_state(), state);
        assert_eq!(session.resume_on_drop, restored);
        let session = connect(&mut Walk::new(&replies), &options).unwrap();
        assert_eq!(session.entry_state, state);
        assert!(!session.resume_on_drop);
    }
}

#[test]
fn waits_for_openocd_until_it_is_ready() {
    let options = options(Transport::Swd, None);
    let mut replies = vec![
        Reply::Port(1234),
        Reply::Done,
        Reply::Number(1000),
        Reply::Number(1010),
        Reply::Running,
        Reply::Failed("refused".into()),
    ];
    match connect(&mut Walk::new(&replies), &options) {
        Err(Stop::Ask(Op::Sleep(100))) => {}
        other => panic!("{other:?}"),
    }
    replies.push(Reply::Done);
    replies.push(Reply::Number(20999));
    match connect(&mut Walk::new(&replies), &options) {
        Err(Stop::Ask(Op::Child)) => {}
        other => panic!("{other:?}"),
    }
    replies.pop();
    replies.push(Reply::Number(21000));
    match connect(&mut Walk::new(&replies), &options) {
        Err(Stop::Ask(Op::Log)) => {}
        other => panic!("{other:?}"),
    }
}
