//! Subcommands of `ks recipients`.
use vstd::prelude::*;

use crate::text::{chars_of, string_of, trim, trimmed};

verus! {

/// Subcommands of `ks recipients`.
#[derive(Debug, Clone, PartialEq, Eq)]
pub enum RecipientsCmd {
    /// List recipient public keys.
    Ls,
    /// Add a recipient and re-encrypt every secret.
    Add {
        /// `age1…` public key.
        pubkey: String,
    },
    /// Remove a recipient and re-encrypt every secret.
    Rm {
        /// `age1…` public key.
        pubkey: String,
    },
}

/// The public key that `cmd` names, with surrounding whitespace removed, as
/// it is parsed; `None` for `ls`.
pub fn requested_key(cmd: &RecipientsCmd) -> (r: Option<String>)
    ensures
        match cmd {
            RecipientsCmd::Ls => r is None,
            RecipientsCmd::Add { pubkey } | RecipientsCmd::Rm { pubkey } => r matches Some(k)
                && k@ == trim(pubkey@),
        },
{
    match cmd {
        RecipientsCmd::Ls => None,
        RecipientsCmd::Add { pubkey } => Some(string_of(&trimmed(&chars_of(pubkey.as_str())))),
        RecipientsCmd::Rm { pubkey } => Some(string_of(&trimmed(&chars_of(pubkey.as_str())))),
    }
}

} // verus!
