use ks_cli::commands::{remove_guard, Confirm};
use ks_cli::error::Error;
use ks_cli::show::{
    meta_lines,
    check_binary_show, copy_target, printable, select_value, show_json, show_plan, JsonShow,
    SecretView, ShowPlan,
};

fn secret(binary: bool, bytes: &[u8]) -> SecretView {
    SecretView {
        binary,
        bytes: bytes.to_vec(),
        password: "ghp_xxx".to_string(),
        text: "ghp_xxx\nuser: alice\n".to_string(),
        keys: vec!["user".to_string()],
        fields: vec![("user".to_string(), "alice".to_string())],
    }
}

#[test]
fn json_view_of_binary_secret_is_base64() {
    match show_json("tls/key.p12", secret(true, b"hello"), None, None, false) {
        Ok(JsonShow::Binary { path, base64 }) => {
            assert_eq!(path, "tls/key.p12");
            assert_eq!(base64, "aGVsbG8=");
        }
        _ => panic!("expected a binary view"),
    }
    for (input, out) in [(&b""[..], ""), (b"f", "Zg=="), (b"fo", "Zm8="), (b"foo", "Zm9v"), (b"\xff\xfe\x00", "//4A")] {
        match show_json("p", secret(true, input), None, None, false) {
            Ok(JsonShow::Binary { base64, .. }) => assert_eq!(base64, out),
            _ => panic!("expected a binary view"),
        }
    }
}

#[test]
fn json_view_of_text_secret() {
    match show_json("svc/token", secret(false, b""), None, None, false) {
        Ok(JsonShow::Text { path, value, text, fields }) => {
            assert_eq!(path, "svc/token");
            assert_eq!(value, "ghp_xxx");
            assert_eq!(text, "ghp_xxx\nuser: alice\n");
            assert_eq!(fields, vec![("user".to_string(), "alice".to_string())]);
        }
        _ => panic!("expected a text view"),
    }
}

#[test]
fn json_view_meta_and_field() {
    match show_json("svc/token", secret(false, b""), Some("user"), Some("alice".to_string()), true) {
        Ok(JsonShow::Meta { path, keys }) => {
            assert_eq!(path, "svc/token");
            assert_eq!(keys, vec!["user".to_string()]);
        }
        _ => panic!("expected a meta view"),
    }
    match show_json("svc/token", secret(false, b""), Some("user"), Some("alice".to_string()), false) {
        Ok(JsonShow::Field { path, field, value }) => {
            assert_eq!((path.as_str(), field.as_str(), value.as_str()), ("svc/token", "user", "alice"));
        }
        _ => panic!("expected a field view"),
    }
    assert!(matches!(
        show_json("svc/token", secret(false, b""), Some("pin"), None, false),
        Err(Error::SecretNotFound(m)) if m == "svc/token#pin"
    ));
}

#[test]
fn binary_secrets_refuse_field_and_copy() {
    assert_eq!(check_binary_show("k", false, None), Ok(()));
    let msg = "k is a binary secret; --field and --copy do not apply".to_string();
    assert_eq!(check_binary_show("k", true, None), Err(Error::InvalidArgument(msg.clone())));
    assert_eq!(check_binary_show("k", false, Some("f")), Err(Error::InvalidArgument(msg)));
}

#[test]
fn value_selection() {
    let pw = || "pw".to_string();
    let tx = || "pw\nuser: a\n".to_string();
    assert_eq!(select_value("p", None, None, false, pw(), tx()), Ok(tx()));
    assert_eq!(select_value("p", None, None, true, pw(), tx()), Ok(pw()));
    assert_eq!(select_value("p", Some("user"), Some("a".to_string()), true, pw(), tx()), Ok("a".to_string()));
    assert_eq!(
        select_value("p", Some("pin"), None, false, pw(), tx()),
        Err(Error::SecretNotFound("p#pin".to_string()))
    );
    assert_eq!(copy_target("p", None), "p");
    assert_eq!(copy_target("p", Some("user")), "p#user");
    assert_eq!(printable("v\n\n"), "v");
    assert_eq!(printable("v\r\n"), "v\r");
}

#[test]
fn json_roundtrip_and_error_contract() {
    match show_json("svc/token", secret(false, b"ghp_xxx\nuser: alice\n"), None, None, false) {
        Ok(JsonShow::Text { path, value, fields, .. }) => {
            assert_eq!(path, "svc/token");
            assert_eq!(value, "ghp_xxx");
            assert_eq!(fields, vec![("user".to_string(), "alice".to_string())]);
        }
        _ => panic!("expected a text view"),
    }
    match show_json("svc/token", secret(false, b""), Some("user"), Some("alice".to_string()), false) {
        Ok(JsonShow::Field { value, .. }) => assert_eq!(value, "alice"),
        _ => panic!("expected a field view"),
    }
    // A destructive operation without --force is refused in --json mode.
    assert!(matches!(
        remove_guard("svc/token", true, false, true),
        Confirm::Refuse(Error::InvalidArgument(_))
    ));
    // With --force it goes ahead.
    assert_eq!(remove_guard("svc/token", true, true, true), Confirm::Proceed);
}

fn plan(binary: bool, field: Option<&str>, value: Option<&str>, copy: bool, meta: bool) -> Result<ShowPlan, Error> {
    show_plan(
        "svc/token",
        vec!["user".to_string()],
        binary,
        field,
        value.map(str::to_string),
        copy,
        meta,
        "ghp_xxx".to_string(),
        "ghp_xxx\nuser: alice\n".to_string(),
    )
}

#[test]
fn show_plan_covers_every_mode() {
    assert_eq!(plan(false, None, None, false, true), Ok(ShowPlan::Meta(vec!["user".to_string()])));
    assert_eq!(plan(true, None, None, false, false), Ok(ShowPlan::Raw));
    assert_eq!(
        plan(true, None, None, true, false),
        Err(Error::InvalidArgument(
            "svc/token is a binary secret; --field and --copy do not apply".to_string()
        ))
    );
    assert_eq!(
        plan(false, None, None, false, false),
        Ok(ShowPlan::Print("ghp_xxx\nuser: alice".to_string()))
    );
    assert_eq!(
        plan(false, None, None, true, false),
        Ok(ShowPlan::Copy { value: "ghp_xxx".to_string(), what: "svc/token".to_string() })
    );
    assert_eq!(
        plan(false, Some("user"), Some("alice"), true, false),
        Ok(ShowPlan::Copy { value: "alice".to_string(), what: "svc/token#user".to_string() })
    );
    assert_eq!(
        plan(false, Some("user"), Some("alice\n\n"), false, false),
        Ok(ShowPlan::Print("alice".to_string()))
    );
    assert_eq!(
        plan(false, Some("pin"), None, false, false),
        Err(Error::SecretNotFound("svc/token#pin".to_string()))
    );
}

#[test]
fn meta_lines_mask_values() {
    assert_eq!(
        meta_lines("svc/token", &vec!["user".to_string(), "url".to_string()]),
        vec![
            "svc/token".to_string(),
            "  fields:".to_string(),
            "    user = •••••••".to_string(),
            "    url = •••••••".to_string(),
        ]
    );
    assert_eq!(
        meta_lines("svc/token", &vec![]),
        vec!["svc/token".to_string(), "  (no fields)".to_string()]
    );
}
