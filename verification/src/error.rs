//! What a command, or a session with OpenOCD, fails with.
use crate::text::cat;
use vstd::prelude::*;

verus! {

/// Why a command ended without success.
#[derive(Debug)]
pub enum AppError {
    /// The request cannot be carried out as it was given.
    Usage(String),
    /// The request was valid and failed.
    Runtime(String),
    /// End with this exit code and without a message.
    Exit(i32),
}

/// The result of a step of a command.
pub type AppResult<T> = Result<T, AppError>;

/// What an [`AppError`] says.
pub enum Failure {
    Usage(Seq<char>),
    Runtime(Seq<char>),
    Exit(int),
}

impl View for AppError {
    type V = Failure;

    open spec fn view(&self) -> Failure {
        match *self {
            AppError::Usage(message) => Failure::Usage(message@),
            AppError::Runtime(message) => Failure::Runtime(message@),
            AppError::Exit(code) => Failure::Exit(code as int),
        }
    }
}

impl Failure {
    /// The text of the failure.
    pub open spec fn message(self) -> Seq<char> {
        match self {
            Failure::Usage(message) => message,
            Failure::Runtime(message) => message,
            Failure::Exit(_) => Seq::empty(),
        }
    }

    /// The failure of a flash operation that had begun.
    pub open spec fn flash_incomplete(self) -> Failure {
        match self {
            Failure::Usage(message) => Failure::Usage(message + FLASH_INCOMPLETE@),
            Failure::Runtime(message) => Failure::Runtime(message + FLASH_INCOMPLETE@),
            Failure::Exit(code) => Failure::Exit(code),
        }
    }
}

/// The note on a flash operation that failed after it had begun.
pub const FLASH_INCOMPLETE: &'static str =
    "\nThe flash operation did not finish. The flash contents can be incomplete.";

/// Whether `result` is what `expected` says.
pub open spec fn agrees<T>(result: Result<T, AppError>, expected: Result<T, Failure>) -> bool {
    match expected {
        Ok(value) => result == Ok::<T, AppError>(value),
        Err(failure) => result is Err && result->Err_0@ == failure,
    }
}

impl AppError {
    /// The exit code of the program.
    pub fn code(&self) -> (code: i32)
        ensures
            code == match self@ {
                Failure::Usage(_) => 2,
                Failure::Runtime(_) => 1,
                Failure::Exit(code) => code,
            },
    {
        match self {
            AppError::Usage(_) => 2,
            AppError::Runtime(_) => 1,
            AppError::Exit(code) => *code,
        }
    }

    /// The text that is shown, empty for a plain exit.
    pub fn message(&self) -> (text: String)
        ensures
            text@ == self@.message(),
    {
        match self {
            AppError::Usage(message) => message.clone(),
            AppError::Runtime(message) => message.clone(),
            AppError::Exit(_) => String::new(),
        }
    }

    /// The same failure, with the note that flash can be incomplete.
    pub fn flash_incomplete(self) -> (error: AppError)
        ensures
            error@ == self@.flash_incomplete(),
    {
        match self {
            AppError::Usage(message) => AppError::Usage(cat(&message, FLASH_INCOMPLETE)),
            AppError::Runtime(message) => AppError::Runtime(cat(&message, FLASH_INCOMPLETE)),
            AppError::Exit(code) => AppError::Exit(code),
        }
    }
}

/// Why an exchange with OpenOCD failed.
#[derive(Debug)]
pub struct SessionError {
    pub message: String,
    /// Whether a new connection can help.
    pub retryable: bool,
}

/// What a [`SessionError`] says.
pub struct Trouble {
    pub message: Seq<char>,
    pub retryable: bool,
}

impl View for SessionError {
    type V = Trouble;

    open spec fn view(&self) -> Trouble {
        Trouble { message: self.message@, retryable: self.retryable }
    }
}

/// Trouble that a new connection cannot help.
pub open spec fn fatal(message: Seq<char>) -> Trouble {
    Trouble { message, retryable: false }
}

/// Trouble that a new connection can help.
pub open spec fn retryable(message: Seq<char>) -> Trouble {
    Trouble { message, retryable: true }
}

/// Trouble with leaving the target as it was found. It is never retried.
pub open spec fn restore(message: Seq<char>) -> Trouble {
    fatal(
        "could not restore the target entry state; the target can remain halted: "@ + message,
    )
}

impl SessionError {
    /// An error that a new connection cannot help.
    pub fn fatal(message: &str) -> (error: SessionError)
        ensures
            error@ == fatal(message@),
    {
        SessionError { message: message.to_owned(), retryable: false }
    }

    /// An error that a new connection can help.
    pub fn retryable(message: &str) -> (error: SessionError)
        ensures
            error@ == retryable(message@),
    {
        SessionError { message: message.to_owned(), retryable: true }
    }

    /// The entry state of the target could not be restored. This is never retried.
    pub fn restore(message: &str) -> (error: SessionError)
        ensures
            error@ == restore(message@),
    {
        SessionError::fatal(
            &cat(
                "could not restore the target entry state; the target can remain halted: ",
                message,
            ),
        )
    }
}

} // verus!
