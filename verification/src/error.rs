//! The failures a command can end with.
//!
//! Each variant carries the detail that the store layer reports with it (a
//! path, a message); the CLI only ever inspects which variant it is, to pick an
//! exit code, and the detail text, to show it.
use vstd::prelude::*;

verus! {

/// A failure reported by the secret store or by the CLI itself.
#[derive(Debug, Clone, PartialEq, Eq)]
pub enum Error {
    /// The passphrase did not unlock the identity (or two entries disagreed).
    WrongPassphrase,
    /// No store at the given location.
    StoreNotFound(String),
    /// No identity file at the given location.
    IdentityNotFound(String),
    /// The recipient list is missing or empty.
    NoRecipients(String),
    /// No secret (or no field of a secret) under the given name.
    SecretNotFound(String),
    /// A store already exists at the given location.
    StoreExists(String),
    /// An identity already exists at the given location.
    IdentityExists(String),
    /// A secret already exists under the given path.
    SecretExists(String),
    /// A malformed logical path or template.
    InvalidPath(String),
    /// A malformed `age1…` recipient.
    InvalidRecipient(String),
    /// A bad command-line argument or a refused request.
    InvalidArgument(String),
    /// A malformed or missing TOTP source.
    InvalidTotp(String),
    /// A secret whose envelope does not match its path (relocated, swapped or rolled back).
    Tampered(String),
    /// Encryption failed.
    Encrypt(String),
    /// Decryption failed.
    Decrypt(String),
    /// No user data directory could be determined.
    NoUserDir,
    /// An I/O failure.
    Io(String),
    /// An external command failed.
    Command(String),
}

} // verus!
