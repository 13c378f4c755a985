//! The editor that `ks edit` opens: `$EDITOR`, else `$VISUAL`, else the
//! platform default, split on whitespace into program plus arguments.
//!
//! Splitting on whitespace means an editor path that itself contains spaces is
//! unsupported; point `$EDITOR` at a wrapper script in that case.
use vstd::prelude::*;

use crate::text::{split_whitespace, words};

verus! {

/// The platform default editor: `notepad` on Windows, `vi` elsewhere.
pub open spec fn default_editor_name(windows: bool) -> Seq<char> {
    if windows {
        "notepad"@
    } else {
        "vi"@
    }
}

/// The platform default editor: `notepad` on Windows, `vi` elsewhere.
pub fn default_editor(windows: bool) -> (r: &'static str)
    ensures
        r@ == default_editor_name(windows),
{
    if windows {
        "notepad"
    } else {
        "vi"
    }
}

/// The editor command line: `$EDITOR` if set, else `$VISUAL` if set, else the
/// default.
pub open spec fn editor_line(
    editor: Option<Seq<char>>,
    visual: Option<Seq<char>>,
    windows: bool,
) -> Seq<char> {
    match editor {
        Some(e) => e,
        None => match visual {
            Some(v) => v,
            None => default_editor_name(windows),
        },
    }
}

/// The program of an editor command line: its first word, or the default when
/// the line is blank.
pub open spec fn editor_program(line: Seq<char>, windows: bool) -> Seq<char> {
    if words(line).len() > 0 {
        words(line)[0]
    } else {
        default_editor_name(windows)
    }
}

/// The arguments of an editor command line: the words after the first.
pub open spec fn editor_args(line: Seq<char>) -> Seq<Seq<char>> {
    if words(line).len() > 0 {
        words(line).drop_first()
    } else {
        Seq::empty()
    }
}

/// The view of an optional string.
pub open spec fn opt_view(o: Option<&str>) -> Option<Seq<char>> {
    match o {
        Some(s) => Some(s@),
        None => None,
    }
}

/// Resolves the editor invocation from the values of `$EDITOR` and `$VISUAL`
/// (`None` when unset) into a program and its arguments.
pub fn editor(editor_var: Option<&str>, visual_var: Option<&str>, windows: bool) -> (r: (
    String,
    Vec<String>,
))
    ensures
        r.0@ == editor_program(editor_line(opt_view(editor_var), opt_view(visual_var), windows), windows),
        r.1@.map_values(|w: String| w@) == editor_args(
            editor_line(opt_view(editor_var), opt_view(visual_var), windows),
        ),
{
    let line: &str = match editor_var {
        Some(e) => e,
        None => match visual_var {
            Some(v) => v,
            None => default_editor(windows),
        },
    };
    let mut parts = split_whitespace(line);
    if parts.len() == 0 {
        (default_editor(windows).to_owned(), parts)
    } else {
        let ghost all = parts@.map_values(|w: String| w@);
        let program = parts.remove(0);
        assert(parts@.map_values(|w: String| w@) == all.drop_first());
        (program, parts)
    }
}

} // verus!
