//! Stable, scriptable exit codes.
//!
//! Numbers follow BSD `sysexits.h` conventions, with one extension: `1` is
//! reserved for the unspecified "general error" used by most Unix tools so
//! users can keep their existing `&&` chains intact.
use vstd::prelude::*;

use crate::error::Error;

verus! {

/// Exit codes produced when `ks` fails. Success is `0` and is returned by each
/// command directly; this enum is the structured failure surface, mapped from
/// [`Error`] by [`for_error`].
#[derive(Debug, Clone, Copy, PartialEq, Eq)]
pub enum ExitCode {
    /// Generic, unspecified failure (1).
    Failure,
    /// User supplied wrong arguments / paths / etc. (64).
    Usage,
    /// Data format error: corrupt file, malformed TOTP, bad recipient line (65).
    DataErr,
    /// An input file did not exist: store, identity or secret not found (66).
    NoInput,
    /// An internal logic bug, e.g. a crypto failure that should not happen (70).
    Software,
    /// Cannot create a file or directory: already exists, permission, ... (73).
    CantCreat,
    /// Permission denied: wrong passphrase (77).
    NoPerm,
}

/// The number that the process exits with for `code`.
pub open spec fn code_number(code: ExitCode) -> u8 {
    match code {
        ExitCode::Failure => 1,
        ExitCode::Usage => 64,
        ExitCode::DataErr => 65,
        ExitCode::NoInput => 66,
        ExitCode::Software => 70,
        ExitCode::CantCreat => 73,
        ExitCode::NoPerm => 77,
    }
}

/// The exit code that an error maps to.
pub open spec fn error_code(err: Error) -> ExitCode {
    match err {
        Error::WrongPassphrase => ExitCode::NoPerm,
        Error::StoreNotFound(_) | Error::IdentityNotFound(_) | Error::NoRecipients(_)
        | Error::SecretNotFound(_) => ExitCode::NoInput,
        Error::StoreExists(_) | Error::IdentityExists(_) | Error::SecretExists(_) => ExitCode::CantCreat,
        Error::InvalidPath(_) | Error::InvalidRecipient(_) | Error::InvalidArgument(_) => ExitCode::Usage,
        Error::InvalidTotp(_) | Error::Tampered(_) => ExitCode::DataErr,
        Error::Encrypt(_) | Error::Decrypt(_) | Error::NoUserDir => ExitCode::Software,
        Error::Io(_) | Error::Command(_) => ExitCode::Failure,
    }
}

impl ExitCode {
    /// Returns the numeric value, as handed to `std::process::ExitCode::from`.
    pub fn as_u8(self) -> (r: u8)
        ensures
            r == code_number(self),
    {
        match self {
            ExitCode::Failure => 1,
            ExitCode::Usage => 64,
            ExitCode::DataErr => 65,
            ExitCode::NoInput => 66,
            ExitCode::Software => 70,
            ExitCode::CantCreat => 73,
            ExitCode::NoPerm => 77,
        }
    }
}

/// Maps an [`Error`] to the closest matching [`ExitCode`].
pub fn for_error(err: &Error) -> (code: ExitCode)
    ensures
        code == error_code(*err),
{
    match err {
        Error::WrongPassphrase => ExitCode::NoPerm,
        Error::StoreNotFound(_) | Error::IdentityNotFound(_) | Error::NoRecipients(_)
        | Error::SecretNotFound(_) => ExitCode::NoInput,
        Error::StoreExists(_) | Error::IdentityExists(_) | Error::SecretExists(_) => {
            ExitCode::CantCreat
        },
        Error::InvalidPath(_) | Error::InvalidRecipient(_) | Error::InvalidArgument(_) => {
            ExitCode::Usage
        },
        Error::InvalidTotp(_) | Error::Tampered(_) => ExitCode::DataErr,
        Error::Encrypt(_) | Error::Decrypt(_) | Error::NoUserDir => ExitCode::Software,
        Error::Io(_) | Error::Command(_) => ExitCode::Failure,
    }
}

/// The exit status of a failed command: never `0`, so a failure can never be
/// read as success by a calling script.
pub proof fn lemma_failure_is_nonzero(err: Error)
    ensures
        code_number(error_code(err)) != 0,
{
}

} // verus!
