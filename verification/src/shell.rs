//! Shell-facing formatting: quoting a value for POSIX shells and PowerShell,
//! deriving an environment-variable name from a secret path, and the `export`
//! statement of each supported shell dialect.
use vstd::prelude::*;

use crate::error::Error;
use crate::text::{ascii_lowercase, chars_of, push_char, string_of, to_ascii_lowercase};

verus! {

/// A shell dialect for `export`-style output.
#[derive(Debug, Clone, Copy, PartialEq, Eq)]
pub enum Dialect {
    /// POSIX shells: `sh`, `bash`, `zsh`.
    Sh,
    /// `fish`.
    Fish,
    /// PowerShell.
    Pwsh,
}

/// The dialect named by `name` (ASCII case-insensitive), if any.
pub open spec fn dialect_named(name: Seq<char>) -> Option<Dialect> {
    let l = ascii_lowercase(name);
    if l == "sh"@ || l == "bash"@ || l == "zsh"@ {
        Some(Dialect::Sh)
    } else if l == "fish"@ {
        Some(Dialect::Fish)
    } else if l == "pwsh"@ || l == "powershell"@ || l == "ps"@ {
        Some(Dialect::Pwsh)
    } else {
        None
    }
}

/// The message for a shell name that names no dialect (given lower-cased).
pub open spec fn unknown_shell_message(lowered: Seq<char>) -> Seq<char> {
    "unknown shell `"@ + lowered + "` (expected: sh, fish, pwsh)"@
}

impl Dialect {
    /// Parses a shell name: `sh`/`bash`/`zsh`, `fish`, or
    /// `pwsh`/`powershell`/`ps`, ignoring ASCII case.
    pub fn parse(s: &str) -> (r: Result<Dialect, Error>)
        ensures
            r matches Ok(d) ==> dialect_named(s@) == Some(d),
            r is Err <==> dialect_named(s@) is None,
            r matches Err(e) ==> e matches Error::InvalidPath(m) && m@ == unknown_shell_message(
                ascii_lowercase(s@),
            ),
    {
        let lowered = string_of(&to_ascii_lowercase(&chars_of(s)));
        if lowered == "sh".to_owned() || lowered == "bash".to_owned() || lowered
            == "zsh".to_owned() {
            Ok(Dialect::Sh)
        } else if lowered == "fish".to_owned() {
            Ok(Dialect::Fish)
        } else if lowered == "pwsh".to_owned() || lowered == "powershell".to_owned() || lowered
            == "ps".to_owned() {
            Ok(Dialect::Pwsh)
        } else {
            let mut msg = "unknown shell `".to_owned();
            msg.append(lowered.as_str());
            msg.append("` (expected: sh, fish, pwsh)");
            Err(Error::InvalidPath(msg))
        }
    }
}

/// How one character is written inside POSIX single quotes: a quote closes the
/// quoting, is written escaped, and the quoting is reopened.
pub open spec fn posix_piece(c: char) -> Seq<char> {
    if c == '\'' {
        seq!['\'', '\\', '\'', '\'']
    } else {
        seq![c]
    }
}

/// The body of the POSIX single-quoted form of `s`.
pub open spec fn posix_escape(s: Seq<char>) -> Seq<char>
    decreases s.len(),
{
    if s.len() == 0 {
        Seq::empty()
    } else {
        posix_piece(s[0]) + posix_escape(s.drop_first())
    }
}

/// `s` as one POSIX shell word: `'…'`, each `'` written as `'\''`.
pub open spec fn posix_quoted(s: Seq<char>) -> Seq<char> {
    seq!['\''] + posix_escape(s) + seq!['\'']
}

proof fn lemma_posix_escape_push(s: Seq<char>, c: char)
    ensures
        posix_escape(s.push(c)) == posix_escape(s) + posix_piece(c),
    decreases s.len(),
{
    if s.len() == 0 {
        assert(s.push(c).drop_first() == Seq::<char>::empty());
        assert(posix_escape(Seq::<char>::empty()) == Seq::<char>::empty());
    } else {
        lemma_posix_escape_push(s.drop_first(), c);
        assert(s.push(c).drop_first() == s.drop_first().push(c));
    }
}

/// Quotes `s` for POSIX shells (and fish): wraps it in single quotes and
/// writes each embedded `'` as `'\''`.
pub fn shell_quote_posix(s: &str) -> (r: String)
    ensures
        r@ == posix_quoted(s@),
{
    let v = chars_of(s);
    let mut r = String::new();
    push_char(&mut r, '\'');
    for i in 0..v.len()
        invariant
            r@ == seq!['\''] + posix_escape(v@.take(i as int)),
    {
        let c = v[i];
        if c == '\'' {
            r.append("'\\''");
            assert("'\\''"@ == posix_piece(c)) by {
                reveal_strlit("'\\''");
            }
        } else {
            push_char(&mut r, c);
        }
        proof {
            lemma_posix_escape_push(v@.take(i as int), c);
            assert(v@.take(i + 1) == v@.take(i as int).push(c));
        }
    }
    push_char(&mut r, '\'');
    assert(v@.take(v.len() as int) == v@);
    r
}

/// The word that a POSIX shell reads from `q`, when `q` is read from inside
/// single quotes; `None` when the quoting is never closed or a backslash ends
/// the text.
pub open spec fn posix_read_quoted(q: Seq<char>) -> Option<Seq<char>>
    decreases q.len(), 1int,
{
    if q.len() == 0 {
        None
    } else if q[0] == '\'' {
        posix_read(q.drop_first())
    } else {
        match posix_read_quoted(q.drop_first()) {
            Some(r) => Some(seq![q[0]] + r),
            None => None,
        }
    }
}

/// The word that a POSIX shell reads from `q` (quote removal for text made of
/// single-quoted runs, backslash escapes and plain characters).
pub open spec fn posix_read(q: Seq<char>) -> Option<Seq<char>>
    decreases q.len(), 0int,
{
    if q.len() == 0 {
        Some(Seq::empty())
    } else if q[0] == '\'' {
        posix_read_quoted(q.drop_first())
    } else if q[0] == '\\' {
        if q.len() >= 2 {
            match posix_read(q.skip(2)) {
                Some(r) => Some(seq![q[1]] + r),
                None => None,
            }
        } else {
            None
        }
    } else {
        match posix_read(q.drop_first()) {
            Some(r) => Some(seq![q[0]] + r),
            None => None,
        }
    }
}

proof fn lemma_posix_read_escape(s: Seq<char>, rest: Seq<char>)
    ensures
        posix_read_quoted(posix_escape(s) + rest) == (match posix_read_quoted(rest) {
            Some(r) => Some(s + r),
            None => None,
        }),
    decreases s.len(),
{
    if s.len() == 0 {
        assert(posix_escape(s) == Seq::<char>::empty());
        assert(posix_escape(s) + rest == rest);
        match posix_read_quoted(rest) {
            Some(r) => {
                assert(s + r == r);
            },
            None => {},
        }
    } else {
        let c = s[0];
        let t = s.drop_first();
        lemma_posix_read_escape(t, rest);
        let tail = posix_escape(t) + rest;
        assert(posix_escape(s) == posix_piece(c) + posix_escape(t));
        let q = posix_piece(c) + tail;
        assert(posix_escape(s) + rest == q);
        if c == '\'' {
            let q1 = q.drop_first();
            assert(q[0] == '\'');
            assert(q1 == seq!['\\', '\'', '\''] + tail);
            assert(posix_read_quoted(q) == posix_read(q1));
            assert(q1[0] == '\\' && q1[1] == '\'');
            let q2 = q1.skip(2);
            assert(q2 == seq!['\''] + tail);
            assert(q2[0] == '\'');
            assert(q2.drop_first() == tail);
            assert(posix_read(q2) == posix_read_quoted(tail));
            assert(posix_read(q1) == (match posix_read(q2) {
                Some(r) => Some(seq![q1[1]] + r),
                None => None,
            }));
        } else {
            assert(q[0] == c);
            assert(q.drop_first() == tail);
            assert(posix_read_quoted(q) == (match posix_read_quoted(tail) {
                Some(r) => Some(seq![c] + r),
                None => None,
            }));
        }
        match posix_read_quoted(rest) {
            Some(r) => {
                assert(seq![c] + (t + r) == s + r);
            },
            None => {},
        }
    }
}

/// A POSIX shell reads back exactly the quoted value: quoting loses nothing
/// and lets nothing through unquoted.
pub proof fn lemma_posix_quote_roundtrip(s: Seq<char>)
    ensures
        posix_read(posix_quoted(s)) == Some(s),
{
    let q = posix_quoted(s);
    assert(q.drop_first() == posix_escape(s) + seq!['\'']);
    lemma_posix_read_escape(s, seq!['\'']);
    let closing = seq!['\''];
    assert(closing[0] == '\'');
    assert(closing.drop_first() == Seq::<char>::empty());
    assert(posix_read(Seq::<char>::empty()) == Some(Seq::<char>::empty()));
    assert(posix_read_quoted(closing) == Some(Seq::<char>::empty()));
    assert(s + Seq::<char>::empty() == s);
}


/// How one character is written inside PowerShell double quotes: `"` is
/// escaped with a backtick.
pub open spec fn ps_piece(c: char) -> Seq<char> {
    if c == '"' {
        seq!['`', '"']
    } else {
        seq![c]
    }
}

/// The body of the PowerShell double-quoted form of `s`.
pub open spec fn ps_escape(s: Seq<char>) -> Seq<char>
    decreases s.len(),
{
    if s.len() == 0 {
        Seq::empty()
    } else {
        ps_piece(s[0]) + ps_escape(s.drop_first())
    }
}

/// `s` as a PowerShell string literal: `"…"`, each `"` written as `` `" ``.
pub open spec fn ps_quoted(s: Seq<char>) -> Seq<char> {
    seq!['"'] + ps_escape(s) + seq!['"']
}

proof fn lemma_ps_escape_push(s: Seq<char>, c: char)
    ensures
        ps_escape(s.push(c)) == ps_escape(s) + ps_piece(c),
    decreases s.len(),
{
    if s.len() == 0 {
        assert(s.push(c).drop_first() == Seq::<char>::empty());
        assert(ps_escape(Seq::<char>::empty()) == Seq::<char>::empty());
    } else {
        lemma_ps_escape_push(s.drop_first(), c);
        assert(s.push(c).drop_first() == s.drop_first().push(c));
    }
}

/// Quotes `s` for PowerShell: wraps it in double quotes and escapes each
/// embedded `"` with a backtick.
pub fn powershell_quote(s: &str) -> (r: String)
    ensures
        r@ == ps_quoted(s@),
{
    let v = chars_of(s);
    let mut r = String::new();
    push_char(&mut r, '"');
    for i in 0..v.len()
        invariant
            r@ == seq!['"'] + ps_escape(v@.take(i as int)),
    {
        let c = v[i];
        if c == '"' {
            push_char(&mut r, '`');
            push_char(&mut r, '"');
        } else {
            push_char(&mut r, c);
        }
        proof {
            lemma_ps_escape_push(v@.take(i as int), c);
            assert(v@.take(i + 1) == v@.take(i as int).push(c));
        }
    }
    push_char(&mut r, '"');
    assert(v@.take(v.len() as int) == v@);
    r
}

/// The value that PowerShell reads from `q`, read from just inside a
/// double-quoted string up to its closing quote, which must end `q`. Only the
/// escapes `` `" `` and `""` are modelled; a `$` (variable expansion) or any
/// other backtick escape is not, and gives `None`.
pub open spec fn ps_read_quoted(q: Seq<char>) -> Option<Seq<char>>
    decreases q.len(),
{
    if q.len() == 0 {
        None
    } else if q[0] == '"' {
        if q.len() == 1 {
            Some(Seq::empty())
        } else if q[1] == '"' {
            match ps_read_quoted(q.skip(2)) {
                Some(r) => Some(seq!['"'] + r),
                None => None,
            }
        } else {
            None
        }
    } else if q[0] == '`' {
        if q.len() >= 2 && q[1] == '"' {
            match ps_read_quoted(q.skip(2)) {
                Some(r) => Some(seq!['"'] + r),
                None => None,
            }
        } else {
            None
        }
    } else if q[0] == '$' {
        None
    } else {
        match ps_read_quoted(q.drop_first()) {
            Some(r) => Some(seq![q[0]] + r),
            None => None,
        }
    }
}

/// The value that PowerShell reads from the literal `q`.
pub open spec fn ps_read(q: Seq<char>) -> Option<Seq<char>> {
    if q.len() > 0 && q[0] == '"' {
        ps_read_quoted(q.drop_first())
    } else {
        None
    }
}

proof fn lemma_ps_read_escape(s: Seq<char>)
    requires
        !s.contains('`'),
        !s.contains('$'),
    ensures
        ps_read_quoted(ps_escape(s) + seq!['"']) == Some(s),
    decreases s.len(),
{
    let closing = seq!['"'];
    if s.len() == 0 {
        assert(ps_escape(s) + closing == closing);
    } else {
        let c = s[0];
        let t = s.drop_first();
        assert(!t.contains('`')) by {
            if t.contains('`') {
                let k = choose|k: int| 0 <= k < t.len() && t[k] == '`';
                assert(s[k + 1] == '`');
            }
        }
        assert(!t.contains('$')) by {
            if t.contains('$') {
                let k = choose|k: int| 0 <= k < t.len() && t[k] == '$';
                assert(s[k + 1] == '$');
            }
        }
        assert(c != '`' && c != '$') by {
            assert(s[0] == c);
        }
        lemma_ps_read_escape(t);
        let tail = ps_escape(t) + closing;
        assert(ps_escape(s) == ps_piece(c) + ps_escape(t));
        let q = ps_piece(c) + tail;
        assert(ps_escape(s) + closing == q);
        if c == '"' {
            assert(q[0] == '`' && q[1] == '"');
            assert(q.skip(2) == tail);
        } else {
            assert(q[0] == c);
            assert(q.drop_first() == tail);
        }
        assert(seq![c] + t == s);
    }
}

/// PowerShell reads back exactly the quoted value, for every value free of
/// `` ` `` and `$` (which the quoting leaves unescaped).
pub proof fn lemma_powershell_quote_roundtrip(s: Seq<char>)
    requires
        !s.contains('`'),
        !s.contains('$'),
    ensures
        ps_read(ps_quoted(s)) == Some(s),
{
    let q = ps_quoted(s);
    assert(q.drop_first() == ps_escape(s) + seq!['"']);
    lemma_ps_read_escape(s);
}

/// Upper-casing of a string, as `str::to_uppercase` does it (full Unicode
/// case mapping).
pub uninterp spec fn uppercase(s: Seq<char>) -> Seq<char>;

/// Upper-cases `s` with std's `str::to_uppercase`. What it returns is only
/// named here, not described: the Unicode case tables are not restated.
#[verifier::external_body]
fn to_uppercase(s: &str) -> (r: String)
    ensures
        r@ == uppercase(s@),
{
    s.to_uppercase()
}

/// `path` with every `/` (the separator) and `-` (allowed in paths, not in
/// shell identifiers) replaced by `_`.
pub open spec fn underscored(path: Seq<char>) -> Seq<char> {
    path.map_values(|c: char| if c == '/' || c == '-' { '_' } else { c })
}

/// The environment-variable name for a secret path: `/` and `-` become `_`,
/// then the whole is upper-cased (`github/api-token` becomes `GITHUB_API_TOKEN`).
pub open spec fn env_name(path: Seq<char>) -> Seq<char> {
    uppercase(underscored(path))
}

/// The environment-variable name for a secret path.
pub fn env_var_name(path: &str) -> (r: String)
    ensures
        r@ == env_name(path@),
{
    let v = chars_of(path);
    let mut u: Vec<char> = Vec::new();
    for i in 0..v.len()
        invariant
            u@ == underscored(v@.take(i as int)),
    {
        let c = v[i];
        u.push(if c == '/' || c == '-' { '_' } else { c });
        assert(v@.take(i + 1) == v@.take(i as int).push(c));
    }
    assert(v@.take(v.len() as int) == v@);
    let s = string_of(&u);
    to_uppercase(s.as_str())
}

/// The statement that sets `name` to `value` in a shell of dialect `d`.
pub open spec fn export_statement(d: Dialect, name: Seq<char>, value: Seq<char>) -> Seq<char> {
    match d {
        Dialect::Sh => "export "@ + name + "="@ + posix_quoted(value),
        Dialect::Fish => "set -gx "@ + name + " "@ + posix_quoted(value),
        Dialect::Pwsh => "$env:"@ + name + " = "@ + ps_quoted(value),
    }
}

/// The statement that sets `name` to `value` in a shell of dialect `d`:
/// `export NAME='v'`, `set -gx NAME 'v'` or `$env:NAME = "v"`.
pub fn export_line(d: Dialect, name: &str, value: &str) -> (r: String)
    ensures
        r@ == export_statement(d, name@, value@),
{
    match d {
        Dialect::Sh => {
            let mut r = "export ".to_owned();
            r.append(name);
            r.append("=");
            r.append(shell_quote_posix(value).as_str());
            r
        },
        Dialect::Fish => {
            let mut r = "set -gx ".to_owned();
            r.append(name);
            r.append(" ");
            r.append(shell_quote_posix(value).as_str());
            r
        },
        Dialect::Pwsh => {
            let mut r = "$env:".to_owned();
            r.append(name);
            r.append(" = ");
            r.append(powershell_quote(value).as_str());
            r
        },
    }
}

/// Every export statement is the dialect's assignment to `name` followed by
/// the value, quoted so that the shell reads back exactly `value`: a POSIX
/// single-quoted word for `sh` and `fish`, a PowerShell double-quoted string
/// for `pwsh` (for values without `$` or a backtick, which PowerShell expands
/// inside double quotes).
pub proof fn lemma_export_reads_back(name: Seq<char>, value: Seq<char>)
    ensures
        export_statement(Dialect::Sh, name, value).take(name.len() + 8int) == "export "@ + name
            + "="@,
        posix_read(export_statement(Dialect::Sh, name, value).skip(name.len() + 8int)) == Some(value),
        export_statement(Dialect::Fish, name, value).take(name.len() + 9int) == "set -gx "@ + name
            + " "@,
        posix_read(export_statement(Dialect::Fish, name, value).skip(name.len() + 9int)) == Some(
            value,
        ),
        export_statement(Dialect::Pwsh, name, value).take(name.len() + 8int) == "$env:"@ + name
            + " = "@,
        !value.contains('`') && !value.contains('$') ==> ps_read(
            export_statement(Dialect::Pwsh, name, value).skip(name.len() + 8int),
        ) == Some(value),
{
    reveal_strlit("export ");
    reveal_strlit("=");
    reveal_strlit("set -gx ");
    reveal_strlit(" ");
    reveal_strlit("$env:");
    reveal_strlit(" = ");
    let sh_head = "export "@ + name + "="@;
    let fish_head = "set -gx "@ + name + " "@;
    let ps_head = "$env:"@ + name + " = "@;
    assert(sh_head.len() == name.len() + 8);
    assert(fish_head.len() == name.len() + 9);
    assert(ps_head.len() == name.len() + 8);
    let sh = export_statement(Dialect::Sh, name, value);
    let fish = export_statement(Dialect::Fish, name, value);
    let ps = export_statement(Dialect::Pwsh, name, value);
    assert(sh =~= sh_head + posix_quoted(value));
    assert(fish =~= fish_head + posix_quoted(value));
    assert(ps =~= ps_head + ps_quoted(value));
    assert(sh.take(name.len() + 8int) =~= sh_head);
    assert(sh.skip(name.len() + 8int) =~= posix_quoted(value));
    assert(fish.take(name.len() + 9int) =~= fish_head);
    assert(fish.skip(name.len() + 9int) =~= posix_quoted(value));
    assert(ps.take(name.len() + 8int) =~= ps_head);
    assert(ps.skip(name.len() + 8int) =~= ps_quoted(value));
    lemma_posix_quote_roundtrip(value);
    if !value.contains('`') && !value.contains('$') {
        lemma_powershell_quote_roundtrip(value);
    }
}

/// The name of a secret path before upper-casing has the path's length and,
/// at every index, `_` where the path has `/` or `-` and the path's character
/// otherwise: no `/` or `-` is left, however many segments the path has.
pub proof fn lemma_underscored(path: Seq<char>)
    ensures
        underscored(path).len() == path.len(),
        forall|i: int|
            0 <= i < path.len() ==> #[trigger] underscored(path)[i] == (if path[i] == '/'
                || path[i] == '-' {
                '_'
            } else {
                path[i]
            }),
        !underscored(path).contains('/'),
        !underscored(path).contains('-'),
{
}

} // verus!
