//! Agent-facing JSON output mode (`--json`).
//!
//! When enabled, every command emits a single JSON object on stdout and runs
//! fully non-interactively. The mode is set once from the parsed `--json` flag
//! and then only read; a second setting is ignored, so the answer can never
//! change halfway through a command.
use vstd::prelude::*;

use crate::error::Error;

verus! {

/// The recorded `--json` setting: unset until [`init`] is first called.
pub struct JsonMode {
    recorded: Option<bool>,
}

impl JsonMode {
    /// The setting recorded by the first [`init`], if any.
    pub closed spec fn recorded(self) -> Option<bool> {
        self.recorded
    }

    /// A mode on which [`init`] has not been called yet.
    pub fn new() -> (m: JsonMode)
        ensures
            m.recorded() is None,
    {
        JsonMode { recorded: None }
    }
}

/// What [`is_json`] answers for a recorded setting.
pub open spec fn spec_is_json(recorded: Option<bool>) -> bool {
    match recorded {
        Some(b) => b,
        None => false,
    }
}

/// The recorded setting after `init(json)` on a mode that had `recorded`.
pub open spec fn after_init(recorded: Option<bool>, json: bool) -> Option<bool> {
    match recorded {
        Some(b) => Some(b),
        None => Some(json),
    }
}

/// Records whether `--json` was given. Only the first call takes effect.
pub fn init(mode: &mut JsonMode, json: bool)
    ensures
        final(mode).recorded() == after_init(old(mode).recorded(), json),
{
    if mode.recorded.is_none() {
        mode.recorded = Some(json);
    }
}

/// Returns `true` when running in `--json` (non-interactive) mode; `false`
/// before [`init`] has been called.
pub fn is_json(mode: &JsonMode) -> (r: bool)
    ensures
        r == spec_is_json(mode.recorded()),
{
    match mode.recorded {
        Some(b) => b,
        None => false,
    }
}

/// The first setting wins: after `init(a)` then `init(b)` on a fresh mode,
/// `is_json` answers `a`; before any `init` it answers `false`.
pub proof fn lemma_first_init_wins(a: bool, b: bool)
    ensures
        spec_is_json(None) == false,
        spec_is_json(after_init(None, a)) == a,
        spec_is_json(after_init(after_init(None, a), b)) == a,
{
}

/// The message of the error that an interactive-only command gives under
/// `--json`.
pub open spec fn interactive_only_message(command: Seq<char>) -> Seq<char> {
    seq!['`'] + command + "` is interactive and cannot run in --json mode"@
}

/// Error returned when an interactive-only command is invoked under `--json`.
pub fn interactive_only(command: &str) -> (e: Error)
    ensures
        e matches Error::InvalidArgument(msg) && msg@ == interactive_only_message(command@),
{
    let mut msg = String::new();
    crate::text::push_char(&mut msg, '`');
    msg.append(command);
    msg.append("` is interactive and cannot run in --json mode");
    Error::InvalidArgument(msg)
}

} // verus!
