//! How OpenOCD is started, and what is kept of its log.
use crate::error;
use crate::error::{AppError, AppResult, Failure};
use crate::tcl;
use crate::tcl::tcl_literal;
use crate::text;
use crate::text::{cat, cat5, chars_of, contains, decimal_text, join_from};
use std::collections::VecDeque;
use vstd::prelude::*;

verus! {

/// The protocols between the probe and the chip.
#[derive(Debug, Clone, Copy, PartialEq, Eq, Structural)]
pub enum Transport {
    Swd,
    Jtag,
}

impl Transport {
    /// What OpenOCD calls the protocol.
    pub open spec fn word(self) -> Seq<char> {
        match self {
            Transport::Swd => "swd"@,
            Transport::Jtag => "jtag"@,
        }
    }

    /// What the protocol is called in messages.
    pub open spec fn title(self) -> Seq<char> {
        match self {
            Transport::Swd => "SWD"@,
            Transport::Jtag => "JTAG"@,
        }
    }

    /// What OpenOCD calls the protocol.
    pub fn name(self) -> (name: &'static str)
        ensures
            name@ == self.word(),
    {
        match self {
            Transport::Swd => "swd",
            Transport::Jtag => "jtag",
        }
    }

    /// What the protocol is called in messages.
    pub fn label(self) -> (label: &'static str)
        ensures
            label@ == self.title(),
    {
        match self {
            Transport::Swd => "SWD",
            Transport::Jtag => "JTAG",
        }
    }
}

/// How to reach the probe.
#[derive(Debug)]
pub struct OpenOcdOptions {
    pub executable: String,
    pub transport: Transport,
    /// The probe clock in kHz.
    pub speed: u32,
    /// The probe to use, where there are several.
    pub serial: Option<String>,
    /// Whether to show the log of OpenOCD.
    pub verbose: bool,
}

/// A port, or the word for none.
pub open spec fn port_text(port: Option<u16>) -> Seq<char> {
    match port {
        Some(port) => text::decimal(port as nat),
        None => "disabled"@,
    }
}

/// What selects one probe among several.
pub open spec fn serial_commands(options: OpenOcdOptions) -> Seq<Seq<char>> {
    match options.serial {
        Some(serial) => seq!["adapter serial "@ + tcl::literal(serial@)],
        None => Seq::empty(),
    }
}

/// The commands that OpenOCD runs when it starts.
pub open spec fn startup_commands(
    options: OpenOcdOptions,
    tcl_port: Option<u16>,
    gdb_port: Option<u16>,
) -> Seq<Seq<char>> {
    seq![
        "adapter driver cmsis-dap"@,
        "if {[catch {adapter usb vid_pid 0x03eb 0x2141}]} { if {[catch {cmsis-dap vid_pid 0x03eb 0x2141}]} { cmsis_dap_vid_pid 0x03eb 0x2141 } }"@,
    ] + serial_commands(options) + seq![
        "transport select "@ + options.transport.word(),
        "set CHIPNAME sam4e"@,
        "set WORKAREASIZE 0x10000"@,
        "source [find target/at91sam4XXX.cfg]"@,
        "set _FLASHNAME $_CHIPNAME.flash"@,
        "flash bank $_FLASHNAME at91sam4 0x00400000 0 1 1 $_TARGETNAME"@,
        "reset_config none"@,
        "adapter speed "@ + text::decimal(options.speed as nat),
        "bindto 127.0.0.1"@,
        "tcl_port "@ + port_text(tcl_port),
        "gdb_port "@ + port_text(gdb_port),
        "telnet_port disabled"@,
    ]
}

/// Command line arguments that hand over commands, each behind the option for one.
pub open spec fn command_args(commands: Seq<Seq<char>>) -> Seq<Seq<char>> {
    Seq::new(
        2 * commands.len(),
        |i: int|
            if i % 2 == 0 {
                "-c"@
            } else {
                commands[i / 2]
            },
    )
}

/// Shows a port.
fn port_word(port: Option<u16>) -> (word: String)
    ensures
        word@ == port_text(port),
{
    match port {
        Some(port) => decimal_text(port as u64),
        None => "disabled".to_owned(),
    }
}

/// The command line arguments for OpenOCD.
pub fn openocd_args(
    options: &OpenOcdOptions,
    tcl_port: Option<u16>,
    gdb_port: Option<u16>,
) -> (args: Vec<String>)
    ensures
        text::views(args@) == command_args(startup_commands(*options, tcl_port, gdb_port)),
{
    let mut commands: Vec<String> = Vec::new();
    commands.push("adapter driver cmsis-dap".to_owned());
    // OpenOCD releases use different names for USB adapter selection.
    commands.push(
        "if {[catch {adapter usb vid_pid 0x03eb 0x2141}]} { if {[catch {cmsis-dap vid_pid 0x03eb 0x2141}]} { cmsis_dap_vid_pid 0x03eb 0x2141 } }".to_owned(),
    );
    if let Some(serial) = &options.serial {
        commands.push(cat("adapter serial ", tcl_literal(serial.as_str()).as_str()));
    }
    commands.push(cat("transport select ", options.transport.name()));
    commands.push("set CHIPNAME sam4e".to_owned());
    commands.push("set WORKAREASIZE 0x10000".to_owned());
    commands.push("source [find target/at91sam4XXX.cfg]".to_owned());
    commands.push("set _FLASHNAME $_CHIPNAME.flash".to_owned());
    commands.push("flash bank $_FLASHNAME at91sam4 0x00400000 0 1 1 $_TARGETNAME".to_owned());
    // The common Atmel-ICE header has no SRST, so reset uses SYSRESETREQ.
    commands.push("reset_config none".to_owned());
    commands.push(cat("adapter speed ", decimal_text(options.speed as u64).as_str()));
    commands.push("bindto 127.0.0.1".to_owned());
    commands.push(cat("tcl_port ", port_word(tcl_port).as_str()));
    commands.push(cat("gdb_port ", port_word(gdb_port).as_str()));
    commands.push("telnet_port disabled".to_owned());
    assert(text::views(commands@) =~= startup_commands(*options, tcl_port, gdb_port));
    let ghost wanted = startup_commands(*options, tcl_port, gdb_port);
    let mut args: Vec<String> = Vec::new();
    let mut i: usize = 0;
    while i < commands.len()
        invariant
            i <= commands@.len(),
            text::views(commands@) == wanted,
            args@.len() == 2 * i,
            forall|k: int|
                0 <= k < args@.len() ==> (#[trigger] args@[k])@ == command_args(wanted)[k],
        decreases commands@.len() - i,
    {
        args.push("-c".to_owned());
        args.push(commands[i].clone());
        proof {
            assert(text::views(commands@)[i as int] == commands@[i as int]@);
        }
        i += 1;
    }
    assert(text::views(args@) =~= command_args(wanted));
    args
}

/// OpenOCD could not be started.
pub open spec fn start_failure(executable: Seq<char>, error: Seq<char>) -> Failure {
    Failure::Runtime(
        "could not start OpenOCD '"@ + executable + "': "@ + error
            + "; install OpenOCD or use --openocd PATH"@,
    )
}

/// The error for an OpenOCD that could not be started.
pub fn openocd_start_error(executable: &str, error: &str) -> (failure: AppError)
    ensures
        failure@ == start_failure(executable@, error@),
{
    AppError::Runtime(
        cat5(
            "could not start OpenOCD '",
            executable,
            "': ",
            error,
            "; install OpenOCD or use --openocd PATH",
        ),
    )
}

/// Whether a message tells of stalled debug access.
pub open spec fn tells_of_a_stall(message: Seq<char>) -> bool {
    text::occurs(message, "stalled AP operation"@) || text::occurs(
        message,
        "DAP transaction stalled"@,
    ) || text::occurs(message, "WAIT recovery"@)
}

/// How many milliseconds to wait before a new connection.
pub open spec fn delay_before_retry(message: Seq<char>, attempt: u32) -> u64 {
    if attempt >= 2 && tells_of_a_stall(message) {
        20_000
    } else {
        500
    }
}

/// How many milliseconds to wait before a new connection. The ROM can stall debug access for about
/// 18 seconds after reset; the first retry stays quick for a dropped packet.
pub fn retry_delay(message: &str, attempt: u32) -> (milliseconds: u64)
    ensures
        milliseconds == delay_before_retry(message@, attempt),
{
    if attempt >= 2 && (contains(message, "stalled AP operation") || contains(
        message,
        "DAP transaction stalled",
    ) || contains(message, "WAIT recovery")) {
        20_000
    } else {
        500
    }
}

/// The last lines of a log, each on a line of its own behind two spaces.
pub open spec fn log_tail(log: Seq<Seq<char>>, count: nat) -> Seq<char> {
    let from = if log.len() > count {
        log.len() - count
    } else {
        0
    };
    if log.skip(from).len() == 0 {
        Seq::empty()
    } else {
        "\n  "@ + text::joined(log.skip(from), "\n  "@)
    }
}

/// Shows the last `count` lines of a log.
pub fn format_log_tail(log: &Vec<String>, count: usize) -> (shown: String)
    ensures
        shown@ == log_tail(text::views(log@), count as nat),
{
    let len: usize = log.len();
    let from: usize = if len > count {
        len - count
    } else {
        0
    };
    assert(text::views(log@).skip(from as int) =~= text::views(log@.skip(from as int)));
    if from == len {
        String::new()
    } else {
        cat("\n  ", join_from(log, from, "\n  ").as_str())
    }
}

/// How many lines of the log are kept.
pub const LOG_LINES: usize = 64;

/// A log with one line more: the oldest line leaves where the log is full.
pub open spec fn with_line(log: Seq<Seq<char>>, line: Seq<char>) -> Seq<Seq<char>> {
    if log.len() == LOG_LINES {
        log.skip(1).push(line)
    } else {
        log.push(line)
    }
}

/// Adds a line to a log.
pub fn push_log_line(log: &mut VecDeque<String>, line: String)
    ensures
        text::views(final(log)@) == with_line(text::views(old(log)@), line@),
{
    let ghost before = log@;
    if log.len() == LOG_LINES {
        let _ = log.pop_front();
    }
    log.push_back(line);
    proof {
        if before.len() == LOG_LINES {
            assert(text::views(log@) =~= text::views(before).skip(1).push(line@));
        } else {
            assert(text::views(log@) =~= text::views(before).push(line@));
        }
    }
}

/// The log after some lines.
pub open spec fn log_of(lines: Seq<Seq<char>>) -> Seq<Seq<char>>
    decreases lines.len(),
{
    if lines.len() == 0 {
        Seq::empty()
    } else {
        with_line(log_of(lines.drop_last()), lines.last())
    }
}

/// The log holds the last lines, in order, and never more than its limit.
pub proof fn law_log_holds_the_last_lines(lines: Seq<Seq<char>>)
    ensures
        log_of(lines) == lines.skip(
            if lines.len() > LOG_LINES {
                lines.len() - LOG_LINES
            } else {
                0
            },
        ),
    decreases lines.len(),
{
    if lines.len() == 0 {
        assert(lines.skip(0) =~= Seq::<Seq<char>>::empty());
    } else {
        law_log_holds_the_last_lines(lines.drop_last());
        let from = if lines.len() > LOG_LINES {
            lines.len() - LOG_LINES
        } else {
            0
        };
        assert(log_of(lines) =~= lines.skip(from));
    }
}

/// Whether a value can be handed to OpenOCD.
pub open spec fn tcl_value(value: Option<Seq<char>>, name: Seq<char>) -> Result<(), Failure> {
    match value {
        Some(value) if value.contains('\0') => Err(
            Failure::Usage(name + " contains a null byte"@),
        ),
        _ => Ok(()),
    }
}

/// Rejects a value with a null byte.
pub fn validate_tcl_value(value: Option<&str>, name: &str) -> (result: AppResult<()>)
    ensures
        error::agrees(
            result,
            tcl_value(
                match value {
                    Some(value) => Some(value@),
                    None => None,
                },
                name@,
            ),
        ),
{
    if let Some(given) = value {
        let chars = chars_of(given);
        let mut i: usize = 0;
        while i < chars.len()
            invariant
                i <= chars@.len(),
                chars@ == given@,
                value == Some(given),
                forall|k: int| 0 <= k < i ==> chars@[k] != '\0',
            ensures
                i == chars@.len(),
            decreases chars@.len() - i,
        {
            if chars[i] == '\0' {
                assert(given@.contains(given@[i as int]));
                return Err(AppError::Usage(cat(name, " contains a null byte")));
            }
            i += 1;
        }
        assert(!given@.contains('\0'));
    }
    Ok(())
}

/// A path as text, or the complaint that it is none.
pub open spec fn path_text(shown: Seq<char>, unicode: bool) -> Result<Seq<char>, Failure> {
    if unicode {
        Ok(shown)
    } else {
        Err(Failure::Usage("path is not valid Unicode: "@ + shown))
    }
}

/// A path as text. `unicode` tells whether `shown` is the whole path, with nothing replaced.
pub fn path_string(shown: &str, unicode: bool) -> (result: AppResult<String>)
    ensures
        match path_text(shown@, unicode) {
            Ok(path) => result is Ok && result->Ok_0@ == path,
            Err(failure) => result is Err && result->Err_0@ == failure,
        },
{
    if unicode {
        Ok(shown.to_owned())
    } else {
        Err(AppError::Usage(cat("path is not valid Unicode: ", shown)))
    }
}

} // verus!
