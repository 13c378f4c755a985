//! The checks behind interactive prompts.
use vstd::prelude::*;

use crate::error::Error;
use crate::text::{chars_of, string_of};

verus! {

/// Passphrases shorter than this many characters need an extra confirmation.
pub const MIN_PASSPHRASE: usize = 12;

/// Checks a new passphrase entered twice: the two entries must match
/// ([`Error::WrongPassphrase`] otherwise). Returns whether the passphrase is
/// shorter than [`MIN_PASSPHRASE`] characters, in which case the user must
/// confirm before it is used.
pub fn check_new_passphrase(first: &str, second: &str) -> (r: Result<bool, Error>)
    ensures
        r is Err <==> first@ != second@,
        r matches Err(e) ==> e == Error::WrongPassphrase,
        r matches Ok(short) ==> short == (first@.len() < MIN_PASSPHRASE),
{
    let a = first.to_owned();
    let b = second.to_owned();
    if a != b {
        return Err(Error::WrongPassphrase);
    }
    let n = first.unicode_len();
    Ok(n < MIN_PASSPHRASE)
}

/// `s` without any trailing `\n` and `\r` characters.
pub open spec fn strip_line_end(s: Seq<char>) -> Seq<char>
    decreases s.len(),
{
    if s.len() > 0 && (s.last() == '\n' || s.last() == '\r') {
        strip_line_end(s.drop_last())
    } else {
        s
    }
}

/// A line read from stdin without its line terminator(s).
pub fn trim_line_end(line: &str) -> (r: String)
    ensures
        r@ == strip_line_end(line@),
{
    let mut v = chars_of(line);
    while v.len() > 0 && (v[v.len() - 1] == '\n' || v[v.len() - 1] == '\r')
        invariant
            strip_line_end(line@) == strip_line_end(v@),
        decreases v.len(),
    {
        let ghost before = v@;
        v.pop();
        assert(v@ == before.drop_last());
    }
    string_of(&v)
}

} // verus!
