use ks_cli::error::Error;
use ks_cli::template::{next_marker, Marker, Scan};

fn found(before: &str, path: &str, field: Option<&str>, after: &str) -> Scan {
    Scan::Found(Marker {
        before: before.to_string(),
        path: path.to_string(),
        field: field.map(|f| f.to_string()),
        after: after.to_string(),
    })
}

#[test]
fn template_without_markers_is_literal() {
    assert_eq!(next_marker("plain text $HOME {x}"), Ok(Scan::End));
    assert_eq!(next_marker(""), Ok(Scan::End));
}

#[test]
fn marker_splits_path_and_field() {
    assert_eq!(
        next_marker("A=${KS:db/url}\nB=${KS:db/cred:user}\n"),
        Ok(found("A=", "db/url", None, "\nB=${KS:db/cred:user}\n"))
    );
    assert_eq!(
        next_marker("\nB=${KS:db/cred:user}\n"),
        Ok(found("\nB=", "db/cred", Some("user"), "\n"))
    );
}

#[test]
fn field_keeps_later_colons() {
    assert_eq!(next_marker("${KS:a:b:c}"), Ok(found("", "a", Some("b:c"), "")));
}

#[test]
fn unterminated_marker_is_an_error() {
    assert_eq!(
        next_marker("x ${KS:db/url"),
        Err(Error::InvalidPath("unterminated `${KS:...}` marker".to_string()))
    );
}

#[test]
fn substitution_walk_reassembles() {
    // Walk a template marker by marker, as `inject` does, with a fixed lookup.
    let mut rest = "u=${KS:svc/login:user} p=${KS:svc/login}!".to_string();
    let mut out = String::new();
    let mut count = 0;
    loop {
        match next_marker(&rest).unwrap() {
            Scan::End => break,
            Scan::Found(m) => {
                out.push_str(&m.before);
                let value = match m.field.as_deref() {
                    Some("user") => "alice",
                    _ => "s3cret",
                };
                assert_eq!(m.path, "svc/login");
                out.push_str(value);
                rest = m.after;
                count += 1;
            }
        }
    }
    out.push_str(&rest);
    assert_eq!(out, "u=alice p=s3cret!");
    assert_eq!(count, 2);
}
