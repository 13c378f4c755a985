//! What `ks show` prints or copies: the choice between the whole text, the
//! primary value and one field, and the `--json` view of a secret.
use vstd::prelude::*;

use base64::Engine;

use crate::error::Error;
use crate::text::{chars_of, string_of};

verus! {

/// The standard base64 alphabet (RFC 4648 §4).
pub open spec fn b64_char(v: int) -> char {
    if v < 26 {
        (('A' as u32) + v) as char
    } else if v < 52 {
        (('a' as u32) + (v - 26)) as char
    } else if v < 62 {
        (('0' as u32) + (v - 52)) as char
    } else if v == 62 {
        '+'
    } else {
        '/'
    }
}

/// Standard base64 with `=` padding (RFC 4648 §4) of `b`.
pub open spec fn base64_standard(b: Seq<u8>) -> Seq<char>
    decreases b.len(),
{
    if b.len() == 0 {
        Seq::empty()
    } else if b.len() == 1 {
        seq![b64_char((b[0] / 4) as int), b64_char((b[0] % 4) * 16), '=', '=']
    } else if b.len() == 2 {
        seq![
            b64_char((b[0] / 4) as int),
            b64_char((b[0] % 4) * 16 + b[1] / 16),
            b64_char((b[1] % 16) * 4),
            '=',
        ]
    } else {
        seq![
            b64_char((b[0] / 4) as int),
            b64_char((b[0] % 4) * 16 + b[1] / 16),
            b64_char((b[1] % 16) * 4 + b[2] / 64),
            b64_char((b[2] % 64) as int),
        ] + base64_standard(b.skip(3))
    }
}

/// Encodes `bytes` with base64's `general_purpose::STANDARD` engine, which is
/// standard base64 with padding. The engine panics when the encoded length
/// does not fit in a `usize`, so that case is excluded.
#[verifier::external_body]
fn encode_base64(bytes: &[u8]) -> (r: String)
    requires
        (bytes@.len() + 2) / 3 * 4 <= usize::MAX,
    ensures
        r@ == base64_standard(bytes@),
{
    base64::engine::general_purpose::STANDARD.encode(bytes)
}

/// The plain-value content of a stored secret that `ks show` reads.
pub struct SecretView {
    /// Whether the payload is opaque bytes rather than text.
    pub binary: bool,
    /// The raw payload.
    pub bytes: Vec<u8>,
    /// The primary value (the first line of a text secret).
    pub password: String,
    /// The whole text.
    pub text: String,
    /// The field names, in order.
    pub keys: Vec<String>,
    /// The `key: value` fields, in order.
    pub fields: Vec<(String, String)>,
}

/// The `--json` view of a secret.
pub enum JsonShow {
    /// `--meta`: field names only, never values.
    Meta { path: String, keys: Vec<String> },
    /// `--field`: one field's value.
    Field { path: String, field: String, value: String },
    /// A binary secret, base64-encoded.
    Binary { path: String, base64: String },
    /// A text secret: primary value, full text and parsed fields.
    Text { path: String, value: String, text: String, fields: Vec<(String, String)> },
}

/// The name of a field of a secret, as shown in messages: `path#field`.
pub open spec fn field_ref(path: Seq<char>, field: Seq<char>) -> Seq<char> {
    path + seq!['#'] + field
}

/// `path#field`.
pub fn field_label(path: &str, field: &str) -> (r: String)
    ensures
        r@ == field_ref(path@, field@),
{
    let mut r = path.to_owned();
    crate::text::push_char(&mut r, '#');
    r.append(field);
    r
}

/// What `ks show` copies or names: the path, or `path#field` for a field.
pub fn copy_target(path: &str, field: Option<&str>) -> (r: String)
    ensures
        r@ == (match field {
            Some(f) => field_ref(path@, f@),
            None => path@,
        }),
{
    match field {
        Some(f) => field_label(path, f),
        None => path.to_owned(),
    }
}

/// Builds the `--json` representation of a secret. `meta` lists field names
/// only; `field` returns one field (`field_value` is that field's value, looked
/// up in the secret); binary secrets are base64; otherwise the primary value,
/// full text, and parsed fields are returned.
///
/// # Errors
/// [`Error::SecretNotFound`] naming `path#field` when the field is absent.
pub fn show_json(
    path: &str,
    secret: SecretView,
    field: Option<&str>,
    field_value: Option<String>,
    meta: bool,
) -> (r: Result<JsonShow, Error>)
    requires
        (secret.bytes@.len() + 2) / 3 * 4 <= usize::MAX,
    ensures
        meta ==> (r matches Ok(JsonShow::Meta { path: p, keys }) && p@ == path@ && keys
            == secret.keys),
        !meta && field is Some && field_value is None ==> (r matches Err(Error::SecretNotFound(m))
            && m@ == field_ref(path@, field->0@)),
        !meta && field is Some && field_value is Some ==> (r matches Ok(
            JsonShow::Field { path: p, field: f, value },
        ) && p@ == path@ && f@ == field->0@ && value == field_value->0),
        !meta && field is None && secret.binary ==> (r matches Ok(
            JsonShow::Binary { path: p, base64 },
        ) && p@ == path@ && base64@ == base64_standard(secret.bytes@)),
        !meta && field is None && !secret.binary ==> (r matches Ok(
            JsonShow::Text { path: p, value, text, fields },
        ) && p@ == path@ && value == secret.password && text == secret.text && fields
            == secret.fields),
{
    if meta {
        return Ok(JsonShow::Meta { path: path.to_owned(), keys: secret.keys });
    }
    match field {
        Some(name) => match field_value {
            Some(value) => Ok(
                JsonShow::Field { path: path.to_owned(), field: name.to_owned(), value },
            ),
            None => Err(Error::SecretNotFound(field_label(path, name))),
        },
        None => {
            if secret.binary {
                let b64 = encode_base64(secret.bytes.as_slice());
                Ok(JsonShow::Binary { path: path.to_owned(), base64: b64 })
            } else {
                Ok(
                    JsonShow::Text {
                        path: path.to_owned(),
                        value: secret.password,
                        text: secret.text,
                        fields: secret.fields,
                    },
                )
            }
        },
    }
}

/// The message when `--field` or `--copy` is used on a binary secret.
pub open spec fn binary_misuse_message(path: Seq<char>) -> Seq<char> {
    path + " is a binary secret; --field and --copy do not apply"@
}

/// A binary secret is written out raw: `--field` and `--copy` do not apply to
/// opaque payloads and are refused as usage errors.
pub fn check_binary_show(path: &str, copy: bool, field: Option<&str>) -> (r: Result<(), Error>)
    ensures
        r is Ok <==> (field is None && !copy),
        r matches Err(e) ==> (e matches Error::InvalidArgument(m) && m@ == binary_misuse_message(
            path@,
        )),
{
    if field.is_some() || copy {
        let mut m = path.to_owned();
        m.append(" is a binary secret; --field and --copy do not apply");
        return Err(Error::InvalidArgument(m));
    }
    Ok(())
}

/// The text `ks show` prints or copies for a text secret: the named field
/// (`field_value`, looked up in the secret), else the primary value when
/// copying, else the whole text.
///
/// # Errors
/// [`Error::SecretNotFound`] naming `path#field` when the field is absent.
pub fn select_value(
    path: &str,
    field: Option<&str>,
    field_value: Option<String>,
    copy: bool,
    password: String,
    text: String,
) -> (r: Result<String, Error>)
    ensures
        field is Some && field_value is None ==> (r matches Err(Error::SecretNotFound(m)) && m@
            == field_ref(path@, field->0@)),
        field is Some && field_value is Some ==> r == Ok::<String, Error>(field_value->0),
        field is None && copy ==> r == Ok::<String, Error>(password),
        field is None && !copy ==> r == Ok::<String, Error>(text),
{
    match field {
        Some(name) => match field_value {
            Some(v) => Ok(v),
            None => Err(Error::SecretNotFound(field_label(path, name))),
        },
        None => if copy {
            Ok(password)
        } else {
            Ok(text)
        },
    }
}

/// `s` without its trailing `\n` characters.
pub open spec fn strip_newlines(s: Seq<char>) -> Seq<char>
    decreases s.len(),
{
    if s.len() > 0 && s.last() == '\n' {
        strip_newlines(s.drop_last())
    } else {
        s
    }
}

/// The value as printed: without trailing newlines (the print adds one).
pub fn printable(value: &str) -> (r: String)
    ensures
        r@ == strip_newlines(value@),
{
    let mut v = chars_of(value);
    while v.len() > 0 && v[v.len() - 1] == '\n'
        invariant
            strip_newlines(value@) == strip_newlines(v@),
        decreases v.len(),
    {
        let ghost before = v@;
        v.pop();
        assert(v@ == before.drop_last());
    }
    string_of(&v)
}

/// What `ks show` does, outside `--json`, once the secret is read.
#[derive(Debug, Clone, PartialEq, Eq)]
pub enum ShowPlan {
    /// `--meta`: list these field names, never their values.
    Meta(Vec<String>),
    /// A binary secret: write its raw bytes out.
    Raw,
    /// Copy `value` to the clipboard; `what` names it in the message.
    Copy { value: String, what: String },
    /// Print this text (a newline follows it).
    Print(String),
}

/// The plan of `ks show` for a secret with field names `keys`, primary value
/// `password` and text `text` (`field_value` is the value of `field`, looked up
/// in the secret): `--meta` lists the names; a binary secret is written raw
/// (and refuses `--field` and `--copy`); otherwise the value chosen by
/// [`select_value`] is copied, or printed without its trailing newlines.
pub fn show_plan(
    path: &str,
    keys: Vec<String>,
    binary: bool,
    field: Option<&str>,
    field_value: Option<String>,
    copy: bool,
    meta: bool,
    password: String,
    text: String,
) -> (r: Result<ShowPlan, Error>)
    ensures
        meta ==> r == Ok::<ShowPlan, Error>(ShowPlan::Meta(keys)),
        !meta && binary && field is None && !copy ==> r == Ok::<ShowPlan, Error>(ShowPlan::Raw),
        !meta && binary && (field is Some || copy) ==> (r matches Err(Error::InvalidArgument(m))
            && m@ == binary_misuse_message(path@)),
        !meta && !binary && field is Some && field_value is None ==> (r matches Err(
            Error::SecretNotFound(m),
        ) && m@ == field_ref(path@, field->0@)),
        !meta && !binary && copy && field is Some && field_value is Some ==> (r matches Ok(
            ShowPlan::Copy { value, what },
        ) && value == field_value->0 && what@ == field_ref(path@, field->0@)),
        !meta && !binary && copy && field is None ==> (r matches Ok(ShowPlan::Copy { value, what })
            && value == password && what@ == path@),
        !meta && !binary && !copy && field is Some && field_value is Some ==> (r matches Ok(
            ShowPlan::Print(s),
        ) && s@ == strip_newlines(field_value->0@)),
        !meta && !binary && !copy && field is None ==> (r matches Ok(ShowPlan::Print(s)) && s@
            == strip_newlines(text@)),
{
    if meta {
        return Ok(ShowPlan::Meta(keys));
    }
    if binary {
        return match check_binary_show(path, copy, field) {
            Ok(()) => Ok(ShowPlan::Raw),
            Err(e) => Err(e),
        };
    }
    let value = match select_value(path, field, field_value, copy, password, text) {
        Ok(v) => v,
        Err(e) => {
            return Err(e);
        },
    };
    if copy {
        Ok(ShowPlan::Copy { value, what: copy_target(path, field) })
    } else {
        Ok(ShowPlan::Print(printable(value.as_str())))
    }
}

/// The line listing one field name, its value masked.
pub open spec fn masked_field(key: Seq<char>) -> Seq<char> {
    "    "@ + key + " = •••••••"@
}

/// What `ks show --meta` prints: the path, then `(no fields)`, or `fields:`
/// and one masked line per field name. Values are never shown.
pub open spec fn meta_text(path: Seq<char>, keys: Seq<Seq<char>>) -> Seq<Seq<char>> {
    seq![path] + if keys.len() == 0 {
        seq!["  (no fields)"@]
    } else {
        seq!["  fields:"@] + keys.map_values(|k: Seq<char>| masked_field(k))
    }
}

/// The lines of `ks show --meta` for a secret with field names `keys`.
pub fn meta_lines(path: &str, keys: &Vec<String>) -> (r: Vec<String>)
    ensures
        r@.map_values(|l: String| l@) == meta_text(path@, keys@.map_values(|k: String| k@)),
{
    let ghost names = keys@.map_values(|k: String| k@);
    let mut r: Vec<String> = Vec::new();
    r.push(path.to_owned());
    if keys.len() == 0 {
        r.push("  (no fields)".to_owned());
        assert(r@.map_values(|l: String| l@) =~= meta_text(path@, names));
        return r;
    }
    r.push("  fields:".to_owned());
    for i in 0..keys.len()
        invariant
            names == keys@.map_values(|k: String| k@),
            keys@.len() > 0,
            r@.map_values(|l: String| l@) == seq![path@, "  fields:"@] + names.take(
                i as int,
            ).map_values(|k: Seq<char>| masked_field(k)),
    {
        let ghost before = r@;
        let mut line = "    ".to_owned();
        line.append(keys[i].as_str());
        line.append(" = •••••••");
        r.push(line);
        assert(names.take(i + 1) == names.take(i as int).push(names[i as int]));
        assert(r@.map_values(|l: String| l@) =~= before.map_values(|l: String| l@).push(
            masked_field(names[i as int]),
        ));
    }
    assert(names.take(keys.len() as int) == names);
    assert(r@.map_values(|l: String| l@) =~= meta_text(path@, names));
    r
}

} // verus!
