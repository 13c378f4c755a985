//! Human-readable timestamps for secret metadata.
use vstd::prelude::*;

use crate::text::{decimal, decimal_string};

verus! {

/// How long ago `delta` seconds is, in the largest whole unit that fits.
pub open spec fn age_text(delta: nat) -> Seq<char> {
    if delta < 60 {
        decimal(delta) + "s ago"@
    } else if delta < 3600 {
        decimal(delta / 60) + "m ago"@
    } else if delta < 86400 {
        decimal(delta / 3600) + "h ago"@
    } else {
        decimal(delta / 86400) + "d ago"@
    }
}

/// A timestamp as `"<secs> (<age>)"`, the age measured from `now`; a timestamp
/// in the future counts as `0s ago`.
pub open spec fn timestamp_text(secs: nat, now: nat) -> Seq<char> {
    let delta: nat = if now >= secs {
        (now - secs) as nat
    } else {
        0
    };
    decimal(secs) + " ("@ + age_text(delta) + ")"@
}

/// Formats a Unix timestamp with its age relative to `now` (both in seconds),
/// e.g. `1700000000 (3d ago)`.
pub fn format_ts(secs: u64, now: u64) -> (r: String)
    requires
        secs <= i64::MAX,
    ensures
        r@ == timestamp_text(secs as nat, now as nat),
{
    let delta: u64 = if now >= secs {
        now - secs
    } else {
        0
    };
    let mut human = if delta < 60 {
        decimal_string(delta)
    } else if delta < 3600 {
        decimal_string(delta / 60)
    } else if delta < 86400 {
        decimal_string(delta / 3600)
    } else {
        decimal_string(delta / 86400)
    };
    if delta < 60 {
        human.append("s ago");
    } else if delta < 3600 {
        human.append("m ago");
    } else if delta < 86400 {
        human.append("h ago");
    } else {
        human.append("d ago");
    }
    let mut r = decimal_string(secs);
    r.append(" (");
    r.append(human.as_str());
    r.append(")");
    r
}

} // verus!
