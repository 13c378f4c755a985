//! Decisions the subcommands take around the store: confirmation guards for
//! destructive writes, the clipboard delay, the exit status of a child
//! process, and `<path>=<NAME>` injection mappings.
use vstd::prelude::*;

use crate::error::Error;
use crate::text::{chars_of, decimal, find_from, find_in, parse_decimal_u64, parse_u64, substring};

verus! {

/// What a command does before a destructive write.
#[derive(Debug, Clone, PartialEq, Eq)]
pub enum Confirm {
    /// Go ahead without asking.
    Proceed,
    /// Ask this yes/no question first (interactive mode only).
    Ask(String),
    /// Refuse with this error.
    Refuse(Error),
}

/// The question asked before overwriting `path`.
pub open spec fn overwrite_question(path: Seq<char>) -> Seq<char> {
    path + " already exists — overwrite?"@
}

/// Whether writing `path` may go ahead: an existing secret is overwritten only
/// with `--force`, or after a confirmation, which `--json` mode never asks for
/// (it refuses with [`Error::SecretExists`] instead).
pub fn overwrite_guard(path: &str, present: bool, force: bool, json: bool) -> (c: Confirm)
    ensures
        !present || force ==> c is Proceed,
        present && !force && json ==> (c matches Confirm::Refuse(Error::SecretExists(p)) && p@
            == path@),
        present && !force && !json ==> (c matches Confirm::Ask(q) && q@ == overwrite_question(
            path@,
        )),
{
    if present && !force {
        if json {
            Confirm::Refuse(Error::SecretExists(path.to_owned()))
        } else {
            let mut q = path.to_owned();
            q.append(" already exists — overwrite?");
            Confirm::Ask(q)
        }
    } else {
        Confirm::Proceed
    }
}

/// The question asked before deleting `path`.
pub open spec fn delete_question(path: Seq<char>) -> Seq<char> {
    "Delete "@ + path + "?"@
}

/// The message when `--json` mode is asked to delete without `--force`.
pub open spec fn force_required_message(path: Seq<char>) -> Seq<char> {
    "refusing to remove `"@ + path + "` without --force in --json mode"@
}

/// Whether removing `path` may go ahead: the secret must exist, and removal
/// needs `--force` or a confirmation, which `--json` mode never asks for.
pub fn remove_guard(path: &str, present: bool, force: bool, json: bool) -> (c: Confirm)
    ensures
        !present ==> (c matches Confirm::Refuse(Error::SecretNotFound(p)) && p@ == path@),
        present && force ==> c is Proceed,
        present && !force && json ==> (c matches Confirm::Refuse(Error::InvalidArgument(m)) && m@
            == force_required_message(path@)),
        present && !force && !json ==> (c matches Confirm::Ask(q) && q@ == delete_question(path@)),
{
    if !present {
        return Confirm::Refuse(Error::SecretNotFound(path.to_owned()));
    }
    if !force {
        if json {
            let mut m = "refusing to remove `".to_owned();
            m.append(path);
            m.append("` without --force in --json mode");
            return Confirm::Refuse(Error::InvalidArgument(m));
        }
        let mut q = "Delete ".to_owned();
        q.append(path);
        q.append("?");
        return Confirm::Ask(q);
    }
    Confirm::Proceed
}

/// The clipboard auto-clear delay for a `KS_CLIP_TIME` value: the value when
/// it parses as a whole number of seconds, else 45.
pub open spec fn clip_delay(value: Option<Seq<char>>) -> u64 {
    match value {
        Some(v) => match parse_u64(v) {
            Some(n) => n,
            None => 45,
        },
        None => 45,
    }
}

/// Clipboard auto-clear delay in seconds, from the value of `KS_CLIP_TIME`
/// (`None` when unset); 45 when unset or not a number.
pub fn clip_secs(value: Option<&str>) -> (r: u64)
    ensures
        r == clip_delay(
            match value {
                Some(v) => Some(v@),
                None => None,
            },
        ),
{
    match value {
        Some(v) => match parse_decimal_u64(v) {
            Some(n) => n,
            None => 45,
        },
        None => 45,
    }
}

/// The exit status `ks` passes on for a child that exited with `code`
/// (`None` when it was killed by a signal): the code clamped to `0..=255`,
/// and 1 without a code.
pub fn child_exit_code(code: Option<i32>) -> (r: u8)
    ensures
        r == (match code {
            None => 1int,
            Some(c) => if c < 0 {
                0int
            } else if c > 255 {
                255int
            } else {
                c as int
            },
        }),
{
    let c: i32 = match code {
        Some(c) => c,
        None => 1,
    };
    if c < 0 {
        0
    } else if c > 255 {
        255
    } else {
        c as u8
    }
}

/// The message for a `--env` argument without `=`.
pub open spec fn mapping_message(raw: Seq<char>) -> Seq<char> {
    "expected `<path>=<NAME>`, got `"@ + raw + "`"@
}

/// Splits a `--env` argument `<path>=<NAME>` at its first `=`.
///
/// # Errors
/// [`Error::InvalidArgument`] when there is no `=`.
pub fn parse_env_mapping(raw: &str) -> (r: Result<(String, String), Error>)
    ensures
        r is Ok <==> find_from(raw@, seq!['='], 0) is Some,
        r matches Ok(pair) ==> ({
            let k = find_from(raw@, seq!['='], 0)->0;
            pair.0@ == raw@.take(k) && pair.1@ == raw@.skip(k + 1)
        }),
        r matches Err(e) ==> e matches Error::InvalidArgument(m) && m@ == mapping_message(raw@),
{
    let v = chars_of(raw);
    let eq: Vec<char> = vec!['='];
    assert(eq@ == seq!['=']);
    match find_in(&v, &eq, 0) {
        Some(k) => {
            proof {
                crate::text::lemma_find_from(v@, eq@, 0);
                assert(crate::text::occurs_at(v@, eq@, k as int));
                assert(k + 1 <= v@.len() == v.len());
            }
            let path = substring(&v, 0, k);
            let name = substring(&v, k + 1, v.len());
            assert(v@.subrange(0, k as int) == v@.take(k as int));
            assert(v@.subrange(k + 1, v@.len() as int) == v@.skip(k + 1));
            Ok((path, name))
        },
        None => {
            let mut m = "expected `<path>=<NAME>`, got `".to_owned();
            m.append(raw);
            m.append("`");
            Err(Error::InvalidArgument(m))
        },
    }
}

/// Where a passphrase comes from.
#[derive(Debug, Clone, PartialEq, Eq)]
pub enum PassphraseSource {
    /// The value of `KS_PASSPHRASE`.
    Env(String),
    /// An interactive masked prompt.
    Prompt,
}

/// The message when `--json` mode needs a passphrase that `KS_PASSPHRASE`
/// does not give.
pub open spec fn passphrase_required_message(purpose: Seq<char>) -> Seq<char> {
    "KS_PASSPHRASE is required to "@ + purpose + " in --json mode"@
}

/// Where the passphrase comes from, given the value of `KS_PASSPHRASE`
/// (`None` when unset): a non-empty value is used as is; otherwise an
/// interactive prompt, which `--json` mode never shows: it fails instead,
/// with a message naming `KS_PASSPHRASE` and what the passphrase is for.
pub fn passphrase_source(env: Option<&str>, json: bool, purpose: &str) -> (r: Result<
    PassphraseSource,
    Error,
>)
    ensures
        env is Some && env->0@.len() > 0 ==> (r matches Ok(PassphraseSource::Env(p)) && p@
            == env->0@),
        !(env is Some && env->0@.len() > 0) && !json ==> r == Ok::<PassphraseSource, Error>(
            PassphraseSource::Prompt,
        ),
        !(env is Some && env->0@.len() > 0) && json ==> (r matches Err(Error::InvalidArgument(m))
            && m@ == passphrase_required_message(purpose@)),
{
    match env {
        Some(v) => {
            if !v.is_empty() {
                return Ok(PassphraseSource::Env(v.to_owned()));
            }
        },
        None => {},
    }
    if json {
        let mut m = "KS_PASSPHRASE is required to ".to_owned();
        m.append(purpose);
        m.append(" in --json mode");
        Err(Error::InvalidArgument(m))
    } else {
        Ok(PassphraseSource::Prompt)
    }
}

/// The message when `ks run` is given no command.
pub open spec fn missing_command_message() -> Seq<char> {
    "missing command after `--`"@
}

/// Splits the command of `ks run` into the program and its arguments.
///
/// # Errors
/// [`Error::InvalidArgument`] when `cmd` is empty.
pub fn split_command(cmd: &Vec<String>) -> (r: Result<(String, Vec<String>), Error>)
    ensures
        cmd@.len() == 0 ==> (r matches Err(Error::InvalidArgument(m)) && m@
            == missing_command_message()),
        cmd@.len() > 0 ==> (r matches Ok((program, args)) && program@ == cmd@[0]@ && args@.map_values(
            |a: String| a@,
        ) == cmd@.drop_first().map_values(|a: String| a@)),
{
    if cmd.len() == 0 {
        return Err(Error::InvalidArgument("missing command after `--`".to_owned()));
    }
    let program = cmd[0].clone();
    let mut args: Vec<String> = Vec::new();
    for i in 1..cmd.len()
        invariant
            1 <= cmd@.len(),
            args@.map_values(|a: String| a@) == cmd@.subrange(1, i as int).map_values(
                |a: String| a@,
            ),
    {
        let ghost before = args@;
        let a = cmd[i].clone();
        args.push(a);
        assert(cmd@.subrange(1, i + 1) == cmd@.subrange(1, i as int).push(cmd@[i as int]));
        assert(args@.map_values(|a: String| a@) =~= before.map_values(|a: String| a@).push(
            cmd@[i as int]@,
        ));
    }
    assert(cmd@.subrange(1, cmd@.len() as int) == cmd@.drop_first());
    Ok((program, args))
}

/// The clipboard delay is the whole number that `KS_CLIP_TIME` holds, however
/// large; it is 45 seconds only when the variable is unset or does not parse.
pub proof fn lemma_clip_delay(v: Seq<char>)
    ensures
        parse_u64(v) is Some ==> clip_delay(Some(v)) == parse_u64(v)->0,
        parse_u64(v) is None ==> clip_delay(Some(v)) == 45,
        clip_delay(None) == 45,
{
}

/// Any delay can be asked for: `KS_CLIP_TIME` set to the decimal notation of
/// `n` gives a delay of `n` seconds, for every `u64` `n`.
pub proof fn lemma_clip_delay_any(n: u64)
    ensures
        clip_delay(Some(decimal(n as nat))) == n,
{
    crate::text::lemma_parse_decimal(n);
}

} // verus!
