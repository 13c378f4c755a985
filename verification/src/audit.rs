//! Whether the optional audit log is on.
//!
//! Auditing is off by default; `KS_AUDIT=1` (or any other value that is not
//! blank, `0`, `false`, `no` or `off`) turns it on.
use vstd::prelude::*;

use crate::text::{chars_of, string_of, trim, trimmed};

verus! {

/// Whether a trimmed `KS_AUDIT` value means "off".
pub open spec fn is_off_word(t: Seq<char>) -> bool {
    t == ""@ || t == "0"@ || t == "false"@ || t == "no"@ || t == "off"@
}

/// Whether the audit log is on, given the value of `KS_AUDIT` (`None` when
/// unset).
pub open spec fn audit_on(value: Option<Seq<char>>) -> bool {
    match value {
        None => false,
        Some(v) => !is_off_word(trim(v)),
    }
}

/// Whether `KS_AUDIT`, with the given value, turns the audit log on: it must
/// be set, and once trimmed be none of `""`, `"0"`, `"false"`, `"no"`, `"off"`.
pub fn audit_enabled(value: Option<&str>) -> (r: bool)
    ensures
        r == audit_on(
            match value {
                Some(v) => Some(v@),
                None => None,
            },
        ),
{
    match value {
        None => false,
        Some(v) => {
            let t = string_of(&trimmed(&chars_of(v)));
            !(t == "".to_owned() || t == "0".to_owned() || t == "false".to_owned() || t
                == "no".to_owned() || t == "off".to_owned())
        },
    }
}

/// The audit log is off exactly when `KS_AUDIT` is unset or, once trimmed, is
/// one of `""`, `"0"`, `"false"`, `"no"` and `"off"`; every other value turns
/// it on.
pub proof fn lemma_audit_switch(v: Seq<char>)
    ensures
        audit_on(Some(v)) <==> !(trim(v) == ""@ || trim(v) == "0"@ || trim(v) == "false"@ || trim(v)
            == "no"@ || trim(v) == "off"@),
        !audit_on(None),
{
}

} // verus!
