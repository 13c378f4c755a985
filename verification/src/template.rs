//! `${KS:path}` / `${KS:path:field}` markers in a template.
//!
//! A template is scanned marker by marker: [`next_marker`] splits the text
//! still to be processed into the literal text before the first marker, the
//! secret path (and optional field) that the marker names, and the text after
//! it. The caller looks the secret up, appends the text and the value, and
//! scans again what is left, so lookups happen in template order.
use vstd::prelude::*;

use crate::error::Error;
use crate::text::{chars_of, find_from, find_in, substring};

verus! {

/// The text that opens a marker.
pub open spec fn marker_open() -> Seq<char> {
    seq!['$', '{', 'K', 'S', ':']
}

/// One marker found in a template, with the text around it.
#[derive(Debug, Clone, PartialEq, Eq)]
pub struct Marker {
    /// Literal text before the marker.
    pub before: String,
    /// The secret path the marker names.
    pub path: String,
    /// The field of that secret, for `${KS:path:field}`.
    pub field: Option<String>,
    /// The text after the marker, still to be scanned.
    pub after: String,
}

/// The outcome of scanning for the next marker.
#[derive(Debug, Clone, PartialEq, Eq)]
pub enum Scan {
    /// No marker is left: the remaining text is literal.
    End,
    /// The first marker and the text around it.
    Found(Marker),
}

/// Where the first marker of `rest` starts.
pub open spec fn marker_start(rest: Seq<char>) -> Option<int> {
    find_from(rest, marker_open(), 0)
}

/// The text after the opening of the marker that starts at `start`.
pub open spec fn after_open(rest: Seq<char>, start: int) -> Seq<char> {
    rest.skip(start + 5)
}

/// Where the marker body that follows the opening ends (its `}`).
pub open spec fn marker_end(body: Seq<char>) -> Option<int> {
    find_from(body, seq!['}'], 0)
}

/// The path of a marker key `path` or `path:field`.
pub open spec fn key_path(key: Seq<char>) -> Seq<char> {
    match find_from(key, seq![':'], 0) {
        Some(c) => key.take(c),
        None => key,
    }
}

/// The field of a marker key `path:field`, if it has one.
pub open spec fn key_field(key: Seq<char>) -> Option<Seq<char>> {
    match find_from(key, seq![':'], 0) {
        Some(c) => Some(key.skip(c + 1)),
        None => None,
    }
}

/// The message of the error for a marker that is never closed.
pub open spec fn unterminated_message() -> Seq<char> {
    "unterminated `${KS:...}` marker"@
}

/// What scanning `rest` gives, described by its parts: `None` when a marker
/// opens but never closes.
pub open spec fn scan_ok(rest: Seq<char>, r: Scan) -> bool {
    match marker_start(rest) {
        None => r is End,
        Some(start) => {
            let body = after_open(rest, start);
            match marker_end(body) {
                None => false,
                Some(end) => {
                    let key = body.take(end);
                    &&& r matches Scan::Found(m)
                    &&& m.before@ == rest.take(start)
                    &&& m.path@ == key_path(key)
                    &&& (match key_field(key) {
                        Some(f) => m.field matches Some(mf) && mf@ == f,
                        None => m.field is None,
                    })
                    &&& m.after@ == body.skip(end + 1)
                }
            }
        }
    }
}

/// Whether `rest` holds a marker that opens but never closes.
pub open spec fn unterminated(rest: Seq<char>) -> bool {
    match marker_start(rest) {
        None => false,
        Some(start) => marker_end(after_open(rest, start)) is None,
    }
}

/// Finds the first `${KS:…}` marker of `rest`.
///
/// # Errors
/// [`Error::InvalidPath`] when a marker opens but no `}` closes it.
pub fn next_marker(rest: &str) -> (r: Result<Scan, Error>)
    ensures
        r matches Ok(s) ==> scan_ok(rest@, s),
        r is Err <==> unterminated(rest@),
        r matches Err(e) ==> e matches Error::InvalidPath(m) && m@ == unterminated_message(),
{
    let v = chars_of(rest);
    let open: Vec<char> = vec!['$', '{', 'K', 'S', ':'];
    assert(open@ == marker_open());
    let start = match find_in(&v, &open, 0) {
        None => {
            return Ok(Scan::End);
        },
        Some(s) => s,
    };
    proof {
        crate::text::lemma_find_from(v@, open@, 0);
        assert(find_from(v@, open@, 0) == Some(start as int));
        assert(crate::text::occurs_at(v@, open@, start as int));
        assert(open@.len() == 5);
        assert(start + 5 <= v@.len());
        assert(v@.len() == v.len());
    }
    let body_start = start + 5;
    let body = {
        let mut b: Vec<char> = Vec::new();
        let mut k = body_start;
        while k < v.len()
            invariant
                body_start <= k <= v@.len(),
                b@ == v@.subrange(body_start as int, k as int),
            decreases v.len() - k,
        {
            b.push(v[k]);
            assert(v@.subrange(body_start as int, k + 1) == v@.subrange(
                body_start as int,
                k as int,
            ).push(v@[k as int]));
            k = k + 1;
        }
        b
    };
    assert(body@ == after_open(v@, start as int));
    let close: Vec<char> = vec!['}'];
    assert(close@ == seq!['}']);
    let end = match find_in(&body, &close, 0) {
        None => {
            return Err(Error::InvalidPath("unterminated `${KS:...}` marker".to_owned()));
        },
        Some(e) => e,
    };
    proof {
        crate::text::lemma_find_from(body@, close@, 0);
    }
    let key: Vec<char> = {
        let mut kv: Vec<char> = Vec::new();
        let mut k: usize = 0;
        while k < end
            invariant
                k <= end < body@.len(),
                kv@ == body@.take(k as int),
            decreases end - k,
        {
            kv.push(body[k]);
            assert(body@.take(k + 1) == body@.take(k as int).push(body@[k as int]));
            k = k + 1;
        }
        kv
    };
    let colon: Vec<char> = vec![':'];
    assert(colon@ == seq![':']);
    let (path, field) = match find_in(&key, &colon, 0) {
        Some(c) => {
            proof {
                crate::text::lemma_find_from(key@, colon@, 0);
            }
            (substring(&key, 0, c), Some(substring(&key, c + 1, key.len())))
        },
        None => (substring(&key, 0, key.len()), None),
    };
    assert(key@.subrange(0, key@.len() as int) == key@);
    proof {
        assert forall|c: int| 0 <= c < key@.len() implies key@.subrange(0, c) == key@.take(c)
            && key@.subrange(c + 1, key@.len() as int) == key@.skip(c + 1) by {}
    }
    let before = substring(&v, 0, start);
    let after = substring(&body, end + 1, body.len());
    Ok(Scan::Found(Marker { before, path, field, after }))
}


/// The key text of a found marker: `path`, or `path:field`.
pub open spec fn marker_key(m: Marker) -> Seq<char> {
    match m.field {
        Some(f) => m.path@ + seq![':'] + f@,
        None => m.path@,
    }
}

/// A found marker accounts for the scanned text exactly: the text is the
/// literal before it, the marker `${KS:key}` itself and the text after it;
/// what is left to scan is strictly shorter; and the literal part holds no
/// marker opening, so no marker is ever skipped.
pub proof fn lemma_scan_reassembles(rest: Seq<char>, m: Marker)
    requires
        scan_ok(rest, Scan::Found(m)),
    ensures
        rest == m.before@ + marker_open() + marker_key(m) + seq!['}'] + m.after@,
        m.after@.len() < rest.len(),
        forall|j: int| !crate::text::occurs_at(m.before@, marker_open(), j),
{
    let start = marker_start(rest)->0;
    crate::text::lemma_find_from(rest, marker_open(), 0);
    let body = after_open(rest, start);
    let end = marker_end(body)->0;
    crate::text::lemma_find_from(body, seq!['}'], 0);
    let key = body.take(end);
    crate::text::lemma_find_from(key, seq![':'], 0);
    assert(body[end] == '}') by {
        assert(crate::text::occurs_at(body, seq!['}'], end));
        assert(body.subrange(end, end + 1) == seq!['}']);
        assert(body.subrange(end, end + 1)[0] == body[end]);
    }
    assert(marker_key(m) == key) by {
        match find_from(key, seq![':'], 0) {
            Some(c) => {
                assert(key.subrange(c, c + 1) == seq![':']);
                assert(key == key.take(c) + seq![':'] + key.skip(c + 1));
            },
            None => {},
        }
    }
    assert(rest.subrange(start, start + 5) == marker_open());
    assert(rest == rest.take(start) + marker_open() + body);
    assert(body == key + seq!['}'] + body.skip(end + 1));
    assert forall|j: int| !crate::text::occurs_at(m.before@, marker_open(), j) by {
        if crate::text::occurs_at(m.before@, marker_open(), j) {
            assert(m.before@.subrange(j, j + 5) == rest.subrange(j, j + 5));
            assert(crate::text::occurs_at(rest, marker_open(), j));
        }
    }
}

} // verus!
