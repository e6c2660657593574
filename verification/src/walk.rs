//! Commands as functions of the replies that they have had so far.
//!
//! A command asks for one thing at a time: to print a line, to send bytes to OpenOCD, to read a
//! file. It is run again with each new reply, goes through the replies that it has already had, and
//! stops at the first question that has none. What it asks, and how it ends, is therefore a function
//! of what the user gave and of the replies.
use crate::config::{ConfigPlace, Environment, RawImage};
use crate::error::{AppError, AppResult, Failure, SessionError, Trouble};
use crate::text;
use vstd::prelude::*;

verus! {

/// What a command can ask for.
#[derive(Debug)]
pub enum Op {
    /// Write a line to standard output.
    Print(String),
    /// Write a line to standard error.
    Warn(String),
    /// Wait for so many milliseconds.
    Sleep(u64),
    /// Read a clock in milliseconds that never goes back.
    Clock,
    /// Find a free local port.
    ReservePort,
    /// Start OpenOCD with these arguments and keep its output as the log.
    Spawn(Vec<String>),
    /// Start OpenOCD with these arguments and wait until it ends.
    Serve(Vec<String>),
    /// See whether OpenOCD still runs.
    Child,
    /// Connect to this local port.
    Dial(u16),
    /// Limit the time for reading from, and writing to, the connection.
    SetTimeouts,
    /// Send bytes to OpenOCD.
    Send(Vec<u8>),
    /// Wait for bytes from OpenOCD.
    Receive,
    /// Close the connection.
    HangUp,
    /// End OpenOCD.
    Kill,
    /// Read the log.
    Log,
    /// See whether standard input is a terminal.
    InputIsTerminal,
    /// See whether standard error is a terminal.
    ErrorIsTerminal,
    /// Write a prompt to standard error.
    Prompt(String),
    /// Read a line from standard input.
    ReadLine,
    /// Find the running executable, and whether it lies in a directory.
    FindExecutable,
    /// Find the current directory.
    FindCurrentDirectory,
    /// Read the environment.
    ReadEnvironment,
    /// See whether the configuration files in two places have the same path.
    SamePath(ConfigPlace, ConfigPlace),
    /// See whether a configuration file is there.
    FindConfig(ConfigPlace),
    /// Read a configuration file.
    ReadConfig(ConfigPlace),
    /// Parse the text of the configuration file in this place.
    ParseConfig(ConfigPlace, String),
    /// Show the path of a configuration file.
    ShowConfig(ConfigPlace),
    /// Show the directory of a configuration file.
    ShowConfigDirectory(ConfigPlace),
    /// Show the parent directory of a configuration file where its path has one.
    ShowParent(ConfigPlace),
    /// Create the parent directory of a configuration file.
    CreateParent(ConfigPlace),
    /// Create a configuration file that is not there.
    CreateConfig(ConfigPlace),
    /// Write the text of the configuration file that was created.
    WriteConfig(ConfigPlace, String),
    /// See whether a path is a file, and find its extension.
    Examine(String),
    /// See whether a path is a file.
    IsFile(String),
    /// Resolve a path through all links.
    Resolve(String),
    /// Make a path absolute.
    MakeAbsolute(String),
    /// Read a file.
    ReadFile(String),
    /// Find the size of a file.
    FileSize(String),
    /// Write bytes to a new temporary file.
    Stage(Vec<u8>),
}

/// What an [`Op`] asks for.
pub enum Request {
    Print(Seq<char>),
    Warn(Seq<char>),
    Sleep(u64),
    Clock,
    ReservePort,
    Spawn(Seq<Seq<char>>),
    Serve(Seq<Seq<char>>),
    Child,
    Dial(u16),
    SetTimeouts,
    Send(Seq<u8>),
    Receive,
    HangUp,
    Kill,
    Log,
    InputIsTerminal,
    ErrorIsTerminal,
    Prompt(Seq<char>),
    ReadLine,
    FindExecutable,
    FindCurrentDirectory,
    ReadEnvironment,
    SamePath(ConfigPlace, ConfigPlace),
    FindConfig(ConfigPlace),
    ReadConfig(ConfigPlace),
    ParseConfig(ConfigPlace, Seq<char>),
    ShowConfig(ConfigPlace),
    ShowConfigDirectory(ConfigPlace),
    ShowParent(ConfigPlace),
    CreateParent(ConfigPlace),
    CreateConfig(ConfigPlace),
    WriteConfig(ConfigPlace, Seq<char>),
    Examine(Seq<char>),
    IsFile(Seq<char>),
    Resolve(Seq<char>),
    MakeAbsolute(Seq<char>),
    ReadFile(Seq<char>),
    FileSize(Seq<char>),
    Stage(Seq<u8>),
}

impl View for Op {
    type V = Request;

    open spec fn view(&self) -> Request {
        match *self {
            Op::Print(s) => Request::Print(s@),
            Op::Warn(s) => Request::Warn(s@),
            Op::Sleep(n) => Request::Sleep(n),
            Op::Clock => Request::Clock,
            Op::ReservePort => Request::ReservePort,
            Op::Spawn(args) => Request::Spawn(text::views(args@)),
            Op::Serve(args) => Request::Serve(text::views(args@)),
            Op::Child => Request::Child,
            Op::Dial(port) => Request::Dial(port),
            Op::SetTimeouts => Request::SetTimeouts,
            Op::Send(bytes) => Request::Send(bytes@),
            Op::Receive => Request::Receive,
            Op::HangUp => Request::HangUp,
            Op::Kill => Request::Kill,
            Op::Log => Request::Log,
            Op::InputIsTerminal => Request::InputIsTerminal,
            Op::ErrorIsTerminal => Request::ErrorIsTerminal,
            Op::Prompt(s) => Request::Prompt(s@),
            Op::ReadLine => Request::ReadLine,
            Op::FindExecutable => Request::FindExecutable,
            Op::FindCurrentDirectory => Request::FindCurrentDirectory,
            Op::ReadEnvironment => Request::ReadEnvironment,
            Op::SamePath(a, b) => Request::SamePath(a, b),
            Op::FindConfig(place) => Request::FindConfig(place),
            Op::ReadConfig(place) => Request::ReadConfig(place),
            Op::ParseConfig(place, s) => Request::ParseConfig(place, s@),
            Op::ShowConfig(place) => Request::ShowConfig(place),
            Op::ShowConfigDirectory(place) => Request::ShowConfigDirectory(place),
            Op::ShowParent(place) => Request::ShowParent(place),
            Op::CreateParent(place) => Request::CreateParent(place),
            Op::CreateConfig(place) => Request::CreateConfig(place),
            Op::WriteConfig(place, s) => Request::WriteConfig(place, s@),
            Op::Examine(s) => Request::Examine(s@),
            Op::IsFile(s) => Request::IsFile(s@),
            Op::Resolve(s) => Request::Resolve(s@),
            Op::MakeAbsolute(s) => Request::MakeAbsolute(s@),
            Op::ReadFile(s) => Request::ReadFile(s@),
            Op::FileSize(s) => Request::FileSize(s@),
            Op::Stage(bytes) => Request::Stage(bytes@),
        }
    }
}

/// What a command can get back.
#[derive(Debug)]
pub enum Reply {
    /// It is done.
    Done,
    /// It failed, for this reason.
    Failed(String),
    /// The file is there already.
    Exists,
    /// OpenOCD still runs.
    Running,
    /// OpenOCD has ended, with this status.
    Exited(String),
    /// OpenOCD has ended, with this exit code unless a signal ended it.
    Ended(Option<i32>),
    /// Yes or no.
    Flag(bool),
    /// A number.
    Number(u64),
    /// A port.
    Port(u16),
    /// A text.
    Text(String),
    /// Bytes.
    Bytes(Vec<u8>),
    /// The lines of the log.
    Lines(Vec<String>),
    /// A path as it is shown, and whether that is the whole path in Unicode.
    Path(String, bool),
    /// A path as it is shown, if there is one.
    Found(Option<String>),
    /// Whether a path is a file, and its extension where that is Unicode.
    File(bool, Option<String>),
    /// The environment.
    Environment(Environment),
    /// The images of a configuration file.
    Images(Vec<RawImage>),
}

/// Why a command stopped before its end.
#[derive(Debug)]
pub enum Stop {
    /// It needs a reply to this.
    Ask(Op),
    /// It failed.
    Fail(AppError),
    /// The link to OpenOCD failed.
    Link(SessionError),
    /// A reply does not fit what was asked.
    Stray,
}

/// What a [`Stop`] says.
pub enum Halt {
    Ask(Request),
    Fail(Failure),
    Link(Trouble),
    Stray,
}

impl View for Stop {
    type V = Halt;

    open spec fn view(&self) -> Halt {
        match *self {
            Stop::Ask(op) => Halt::Ask(op@),
            Stop::Fail(error) => Halt::Fail(error@),
            Stop::Link(error) => Halt::Link(error@),
            Stop::Stray => Halt::Stray,
        }
    }
}

/// What a result says.
pub open spec fn seen<T: View>(result: Result<T, Stop>) -> Result<T::V, Halt> {
    match result {
        Ok(value) => Ok(value@),
        Err(stop) => Err(stop@),
    }
}

/// What the outcome of a request says.
pub open spec fn heard<T: View>(result: Result<Result<T, String>, Stop>) -> Result<
    Result<T::V, Seq<char>>,
    Halt,
> {
    match result {
        Ok(Ok(value)) => Ok(Ok(value@)),
        Ok(Err(reason)) => Ok(Err(reason@)),
        Err(stop) => Err(stop@),
    }
}

/// The replies, how many of them have been used, and what they were the replies to.
pub struct Trail {
    pub replies: Seq<Reply>,
    pub at: int,
    pub asked: Seq<Request>,
}

impl Trail {
    /// How many replies have not been used.
    pub open spec fn left(self) -> int {
        self.replies.len() - self.at
    }
}

/// Whether a walk that has come to `a` can go on to `b`: nothing that has happened is undone.
pub open spec fn leads_to(a: Trail, b: Trail) -> bool {
    &&& b.replies == a.replies
    &&& a.at <= b.at
    &&& b.asked.len() - a.asked.len() == b.at - a.at
    &&& forall|i: int| 0 <= i < a.asked.len() ==> (#[trigger] b.asked[i]) == a.asked[i]
}

/// Asks for something: the next reply is used, or there is none yet.
pub open spec fn ask(t: Trail, request: Request) -> (Trail, Result<Reply, Halt>) {
    if 0 <= t.at < t.replies.len() {
        (
            Trail { replies: t.replies, at: t.at + 1, asked: t.asked.push(request) },
            Ok(t.replies[t.at]),
        )
    } else {
        (t, Err(Halt::Ask(request)))
    }
}

/// The outcome of a request that is only carried out.
pub open spec fn ask_done(t: Trail, request: Request) -> (Trail, Result<Result<(), Seq<char>>, Halt>) {
    let (t, reply) = ask(t, request);
    (
        t,
        match reply {
            Err(halt) => Err(halt),
            Ok(Reply::Done) => Ok(Ok(())),
            Ok(Reply::Failed(reason)) => Ok(Err(reason@)),
            Ok(_) => Err(Halt::Stray),
        },
    )
}

/// Carries out a request that cannot fail in a way that matters.
pub open spec fn ask_act(t: Trail, request: Request) -> (Trail, Result<(), Halt>) {
    let (t, outcome) = ask_done(t, request);
    (
        t,
        match outcome {
            Err(halt) => Err(halt),
            Ok(_) => Ok(()),
        },
    )
}

/// The outcome of a request for a number.
pub open spec fn ask_number(t: Trail, request: Request) -> (
    Trail,
    Result<Result<u64, Seq<char>>, Halt>,
) {
    let (t, reply) = ask(t, request);
    (
        t,
        match reply {
            Err(halt) => Err(halt),
            Ok(Reply::Number(n)) => Ok(Ok(n)),
            Ok(Reply::Failed(reason)) => Ok(Err(reason@)),
            Ok(_) => Err(Halt::Stray),
        },
    )
}

/// The outcome of a request for a text.
pub open spec fn ask_text(t: Trail, request: Request) -> (
    Trail,
    Result<Result<Seq<char>, Seq<char>>, Halt>,
) {
    let (t, reply) = ask(t, request);
    (
        t,
        match reply {
            Err(halt) => Err(halt),
            Ok(Reply::Text(s)) => Ok(Ok(s@)),
            Ok(Reply::Failed(reason)) => Ok(Err(reason@)),
            Ok(_) => Err(Halt::Stray),
        },
    )
}

/// The outcome of a request for bytes.
pub open spec fn ask_bytes(t: Trail, request: Request) -> (
    Trail,
    Result<Result<Seq<u8>, Seq<char>>, Halt>,
) {
    let (t, reply) = ask(t, request);
    (
        t,
        match reply {
            Err(halt) => Err(halt),
            Ok(Reply::Bytes(bytes)) => Ok(Ok(bytes@)),
            Ok(Reply::Failed(reason)) => Ok(Err(reason@)),
            Ok(_) => Err(Halt::Stray),
        },
    )
}

/// The outcome of a request for a path.
pub open spec fn ask_path(t: Trail, request: Request) -> (
    Trail,
    Result<Result<(Seq<char>, bool), Seq<char>>, Halt>,
) {
    let (t, reply) = ask(t, request);
    (
        t,
        match reply {
            Err(halt) => Err(halt),
            Ok(Reply::Path(shown, unicode)) => Ok(Ok((shown@, unicode))),
            Ok(Reply::Failed(reason)) => Ok(Err(reason@)),
            Ok(_) => Err(Halt::Stray),
        },
    )
}

/// The answer to a question.
pub open spec fn ask_flag(t: Trail, request: Request) -> (Trail, Result<bool, Halt>) {
    let (t, reply) = ask(t, request);
    (
        t,
        match reply {
            Err(halt) => Err(halt),
            Ok(Reply::Flag(flag)) => Ok(flag),
            Ok(_) => Err(Halt::Stray),
        },
    )
}

/// A path, if there is one.
pub open spec fn ask_found(t: Trail, request: Request) -> (Trail, Result<Option<Seq<char>>, Halt>) {
    let (t, reply) = ask(t, request);
    (
        t,
        match reply {
            Err(halt) => Err(halt),
            Ok(Reply::Found(path)) => Ok(text::maybe(path)),
            Ok(_) => Err(Halt::Stray),
        },
    )
}

/// The walk of a command through its replies.
pub struct Walk<'a> {
    replies: &'a [Reply],
    at: usize,
    asked: Ghost<Seq<Request>>,
}

impl<'a> View for Walk<'a> {
    type V = Trail;

    closed spec fn view(&self) -> Trail {
        Trail { replies: self.replies@, at: self.at as int, asked: self.asked@ }
    }
}

/// The start of a walk.
pub open spec fn start(replies: Seq<Reply>) -> Trail {
    Trail { replies, at: 0, asked: Seq::empty() }
}

impl<'a> Walk<'a> {
    /// Starts with the first reply.
    pub fn new(replies: &'a [Reply]) -> (walk: Walk<'a>)
        ensures
            walk@ == start(replies@),
    {
        Walk { replies, at: 0, asked: Ghost(Seq::empty()) }
    }

    /// Asks for something.
    pub fn ask(&mut self, op: Op) -> (reply: Result<&'a Reply, Stop>)
        ensures
            final(self)@ == ask(old(self)@, op@).0,
            match ask(old(self)@, op@).1 {
                Ok(expected) => reply is Ok && *reply->Ok_0 == expected,
                Err(halt) => reply is Err && reply->Err_0@ == halt,
            },
    {
        if self.at < self.replies.len() {
            let reply = &self.replies[self.at];
            self.at = self.at + 1;
            self.asked = Ghost(self.asked@.push(op@));
            Ok(reply)
        } else {
            Err(Stop::Ask(op))
        }
    }

    /// Asks for something to be carried out.
    pub fn done(&mut self, op: Op) -> (outcome: Result<Result<(), String>, Stop>)
        ensures
            (final(self)@, heard(outcome)) == ask_done(old(self)@, op@),
    {
        match self.ask(op)? {
            Reply::Done => Ok(Ok(())),
            Reply::Failed(reason) => Ok(Err(reason.clone())),
            _ => Err(Stop::Stray),
        }
    }

    /// Asks for something to be carried out, whether or not that succeeds.
    pub fn act(&mut self, op: Op) -> (outcome: Result<(), Stop>)
        ensures
            (final(self)@, seen(outcome)) == ask_act(old(self)@, op@),
    {
        let _ = self.done(op)?;
        Ok(())
    }

    /// Asks for a number.
    pub fn number(&mut self, op: Op) -> (outcome: Result<Result<u64, String>, Stop>)
        ensures
            (final(self)@, heard(outcome)) == ask_number(old(self)@, op@),
    {
        match self.ask(op)? {
            Reply::Number(n) => Ok(Ok(*n)),
            Reply::Failed(reason) => Ok(Err(reason.clone())),
            _ => Err(Stop::Stray),
        }
    }

    /// Asks for a text.
    pub fn text(&mut self, op: Op) -> (outcome: Result<Result<String, String>, Stop>)
        ensures
            (final(self)@, heard(outcome)) == ask_text(old(self)@, op@),
    {
        match self.ask(op)? {
            Reply::Text(s) => Ok(Ok(s.clone())),
            Reply::Failed(reason) => Ok(Err(reason.clone())),
            _ => Err(Stop::Stray),
        }
    }

    /// Asks for bytes.
    pub fn bytes(&mut self, op: Op) -> (outcome: Result<Result<&'a Vec<u8>, String>, Stop>)
        ensures
            (final(self)@, heard(outcome)) == ask_bytes(old(self)@, op@),
    {
        match self.ask(op)? {
            Reply::Bytes(bytes) => Ok(Ok(bytes)),
            Reply::Failed(reason) => Ok(Err(reason.clone())),
            _ => Err(Stop::Stray),
        }
    }

    /// Asks for a path.
    pub fn path(&mut self, op: Op) -> (outcome: Result<Result<(String, bool), String>, Stop>)
        ensures
            (final(self)@, heard(outcome)) == ask_path(old(self)@, op@),
    {
        match self.ask(op)? {
            Reply::Path(shown, unicode) => Ok(Ok((shown.clone(), *unicode))),
            Reply::Failed(reason) => Ok(Err(reason.clone())),
            _ => Err(Stop::Stray),
        }
    }

    /// Asks a question.
    pub fn flag(&mut self, op: Op) -> (outcome: Result<bool, Stop>)
        ensures
            (final(self)@, seen(outcome)) == ask_flag(old(self)@, op@),
    {
        match self.ask(op)? {
            Reply::Flag(flag) => Ok(*flag),
            _ => Err(Stop::Stray),
        }
    }

    /// Asks for a path that perhaps is not there.
    pub fn found(&mut self, op: Op) -> (outcome: Result<Option<String>, Stop>)
        ensures
            final(self)@ == ask_found(old(self)@, op@).0,
            match ask_found(old(self)@, op@).1 {
                Ok(path) => outcome is Ok && text::maybe(outcome->Ok_0) == path,
                Err(halt) => outcome is Err && outcome->Err_0@ == halt,
            },
    {
        match self.ask(op)? {
            Reply::Found(Some(path)) => Ok(Some(path.clone())),
            Reply::Found(None) => Ok(None),
            _ => Err(Stop::Stray),
        }
    }

    /// Writes a line to standard output.
    pub fn print(&mut self, line: &str) -> (outcome: Result<(), Stop>)
        ensures
            (final(self)@, seen(outcome)) == ask_act(old(self)@, Request::Print(line@)),
    {
        self.act(Op::Print(line.to_owned()))
    }
}

/// A result of a step without a walk.
pub open spec fn lifted<T>(result: Result<T, Failure>) -> Result<T, Halt> {
    match result {
        Ok(value) => Ok(value),
        Err(failure) => Err(Halt::Fail(failure)),
    }
}

/// Goes on with the result of a step without a walk.
pub fn lift<T>(result: AppResult<T>) -> (outcome: Result<T, Stop>)
    ensures
        match result {
            Ok(value) => outcome == Ok::<T, Stop>(value),
            Err(error) => outcome == Err::<T, Stop>(Stop::Fail(error)),
        },
{
    match result {
        Ok(value) => Ok(value),
        Err(error) => Err(Stop::Fail(error)),
    }
}

/// Whether a reply was given to a request between two points of a walk.
pub open spec fn told(t: Trail, u: Trail, request: Request, reply: Reply) -> bool {
    exists|k: int| #[trigger] told_at(t, u, k, request, reply)
}

/// Whether request `k` of a walk came between two points of it, and had a reply.
pub open spec fn told_at(t: Trail, u: Trail, k: int, request: Request, reply: Reply) -> bool {
    &&& t.asked.len() <= k < u.asked.len()
    &&& u.asked[k] == request
    &&& u.replies[u.at - u.asked.len() + k] == reply
}

/// What was told in a part of a walk was told in the whole.
pub proof fn lemma_told_inside(
    t: Trail,
    a: Trail,
    b: Trail,
    u: Trail,
    request: Request,
    reply: Reply,
)
    requires
        leads_to(t, a),
        told(a, b, request, reply),
        leads_to(b, u),
    ensures
        told(t, u, request, reply),
{
    let k = choose|k: int| #[trigger] told_at(a, b, k, request, reply);
    assert(u.asked[k] == b.asked[k]);
    assert(told_at(t, u, k, request, reply));
}

/// Asking tells.
pub proof fn lemma_told(t: Trail, request: Request)
    requires
        ask(t, request).1 is Ok,
    ensures
        told(t, ask(t, request).0, request, ask(t, request).1->Ok_0),
{
    let u = ask(t, request).0;
    assert(u.asked[t.asked.len() as int] == request);
    assert(told_at(t, u, t.asked.len() as int, request, ask(t, request).1->Ok_0));
}

} // verus!
