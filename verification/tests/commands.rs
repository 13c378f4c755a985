use ks_cli::audit::audit_enabled;
use ks_cli::commands::{
    child_exit_code, clip_secs, overwrite_guard, parse_env_mapping, passphrase_source, remove_guard,
    split_command,
    Confirm, PassphraseSource,
};
use ks_cli::edit::{default_editor, editor};
use ks_cli::error::Error;
use ks_cli::hardening::memlock_plan;
use ks_cli::info::format_ts;
use ks_cli::prompt::{check_new_passphrase, trim_line_end};

#[test]
fn overwrite_needs_force_or_confirmation() {
    assert_eq!(overwrite_guard("a/b", false, false, false), Confirm::Proceed);
    assert_eq!(overwrite_guard("a/b", true, true, true), Confirm::Proceed);
    assert_eq!(
        overwrite_guard("a/b", true, false, false),
        Confirm::Ask("a/b already exists — overwrite?".to_string())
    );
    assert_eq!(
        overwrite_guard("a/b", true, false, true),
        Confirm::Refuse(Error::SecretExists("a/b".to_string()))
    );
}

#[test]
fn removal_needs_existence_and_force() {
    assert_eq!(
        remove_guard("svc/token", false, true, true),
        Confirm::Refuse(Error::SecretNotFound("svc/token".to_string()))
    );
    assert_eq!(remove_guard("svc/token", true, true, true), Confirm::Proceed);
    assert_eq!(
        remove_guard("svc/token", true, false, false),
        Confirm::Ask("Delete svc/token?".to_string())
    );
    assert_eq!(
        remove_guard("svc/token", true, false, true),
        Confirm::Refuse(Error::InvalidArgument(
            "refusing to remove `svc/token` without --force in --json mode".to_string()
        ))
    );
}

#[test]
fn json_mode_never_prompts() {
    for (e, f) in [(false, false), (false, true), (true, false), (true, true)] {
        assert!(!matches!(overwrite_guard("p", e, f, true), Confirm::Ask(_)));
        assert!(!matches!(remove_guard("p", e, f, true), Confirm::Ask(_)));
    }
}

#[test]
fn clipboard_delay_defaults_to_45() {
    assert_eq!(clip_secs(None), 45);
    assert_eq!(clip_secs(Some("10")), 10);
    assert_eq!(clip_secs(Some("ten")), 45);
    assert_eq!(clip_secs(Some("")), 45);
    assert_eq!(clip_secs(Some("-1")), 45);
}

#[test]
fn child_exit_codes_are_clamped() {
    assert_eq!(child_exit_code(Some(0)), 0);
    assert_eq!(child_exit_code(Some(3)), 3);
    assert_eq!(child_exit_code(Some(300)), 255);
    assert_eq!(child_exit_code(Some(-2)), 0);
    assert_eq!(child_exit_code(None), 1);
}

#[test]
fn env_mapping_splits_at_first_equals() {
    assert_eq!(
        parse_env_mapping("github/pat=GITHUB_TOKEN"),
        Ok(("github/pat".to_string(), "GITHUB_TOKEN".to_string()))
    );
    assert_eq!(parse_env_mapping("a=b=c"), Ok(("a".to_string(), "b=c".to_string())));
    assert_eq!(
        parse_env_mapping("github/pat"),
        Err(Error::InvalidArgument("expected `<path>=<NAME>`, got `github/pat`".to_string()))
    );
}

#[test]
fn audit_is_off_by_default() {
    assert!(!audit_enabled(None));
    assert!(audit_enabled(Some("1")));
    assert!(audit_enabled(Some(" yes ")));
    for off in ["", "  ", "0", "false", " no", "off\n"] {
        assert!(!audit_enabled(Some(off)), "value {off:?}");
    }
    assert!(audit_enabled(Some("OFF")));
}

#[test]
fn editor_resolution() {
    assert_eq!(default_editor(true), "notepad");
    assert_eq!(default_editor(false), "vi");
    assert_eq!(editor(Some("code --wait"), Some("nano"), false), ("code".to_string(), vec!["--wait".to_string()]));
    assert_eq!(editor(None, Some("nano"), false), ("nano".to_string(), vec![]));
    assert_eq!(editor(None, None, true), ("notepad".to_string(), vec![]));
    assert_eq!(editor(Some("   "), None, false), ("vi".to_string(), vec![]));
}

#[test]
fn memlock_future_only_when_unlimited() {
    let p = memlock_plan(u64::MAX, u64::MAX);
    assert_eq!(p.soft_limit, u64::MAX);
    assert!(p.lock_future);
    let q = memlock_plan(65536, u64::MAX);
    assert_eq!(q.soft_limit, 65536);
    assert!(!q.lock_future);
}

#[test]
fn timestamps_show_age() {
    assert_eq!(format_ts(1000, 1030), "1000 (30s ago)");
    assert_eq!(format_ts(1000, 1000 + 90), "1000 (1m ago)");
    assert_eq!(format_ts(1000, 1000 + 7200), "1000 (2h ago)");
    assert_eq!(format_ts(1000, 1000 + 3 * 86_400 + 5), "1000 (3d ago)");
    assert_eq!(format_ts(5000, 1000), "5000 (0s ago)");
}

#[test]
fn new_passphrase_checks() {
    assert_eq!(check_new_passphrase("abc", "abd"), Err(Error::WrongPassphrase));
    assert_eq!(check_new_passphrase("short", "short"), Ok(true));
    assert_eq!(check_new_passphrase("long enough pass", "long enough pass"), Ok(false));
    assert_eq!(check_new_passphrase("ééééééééééé", "ééééééééééé"), Ok(true));
}

#[test]
fn line_terminators_are_stripped() {
    assert_eq!(trim_line_end("value\r\n"), "value");
    assert_eq!(trim_line_end("value\n\n"), "value");
    assert_eq!(trim_line_end(" v \t"), " v \t");
}

#[test]
fn passphrase_comes_from_env_or_prompt() {
    assert_eq!(
        passphrase_source(Some("hunter2"), true, "unlock the identity"),
        Ok(PassphraseSource::Env("hunter2".to_string()))
    );
    assert_eq!(passphrase_source(None, false, "unlock the identity"), Ok(PassphraseSource::Prompt));
    assert_eq!(passphrase_source(Some(""), false, "unlock the identity"), Ok(PassphraseSource::Prompt));
}

#[test]
fn json_unlock_requires_passphrase() {
    let err = passphrase_source(Some(""), true, "set the master passphrase").unwrap_err();
    assert_eq!(
        err,
        Error::InvalidArgument(
            "KS_PASSPHRASE is required to set the master passphrase in --json mode".to_string()
        )
    );
    assert!(matches!(passphrase_source(None, true, "unlock"), Err(Error::InvalidArgument(m)) if m.contains("KS_PASSPHRASE")));
}

#[test]
fn run_needs_a_command() {
    assert_eq!(
        split_command(&vec![]),
        Err(Error::InvalidArgument("missing command after `--`".to_string()))
    );
    assert_eq!(
        split_command(&vec!["npm".to_string(), "test".to_string(), "--ci".to_string()]),
        Ok(("npm".to_string(), vec!["test".to_string(), "--ci".to_string()]))
    );
}
