use ks_cli::error::Error;
use ks_cli::exit::{for_error, ExitCode};
use ks_cli::output::{init, interactive_only, is_json, JsonMode};

#[test]
fn exit_codes_follow_sysexits() {
    assert_eq!(ExitCode::Failure.as_u8(), 1);
    assert_eq!(ExitCode::Usage.as_u8(), 64);
    assert_eq!(ExitCode::DataErr.as_u8(), 65);
    assert_eq!(ExitCode::NoInput.as_u8(), 66);
    assert_eq!(ExitCode::Software.as_u8(), 70);
    assert_eq!(ExitCode::CantCreat.as_u8(), 73);
    assert_eq!(ExitCode::NoPerm.as_u8(), 77);
}

#[test]
fn errors_map_to_exit_codes() {
    let s = || "x".to_string();
    assert_eq!(for_error(&Error::WrongPassphrase), ExitCode::NoPerm);
    assert_eq!(for_error(&Error::StoreNotFound(s())), ExitCode::NoInput);
    assert_eq!(for_error(&Error::IdentityNotFound(s())), ExitCode::NoInput);
    assert_eq!(for_error(&Error::NoRecipients(s())), ExitCode::NoInput);
    assert_eq!(for_error(&Error::SecretNotFound(s())), ExitCode::NoInput);
    assert_eq!(for_error(&Error::StoreExists(s())), ExitCode::CantCreat);
    assert_eq!(for_error(&Error::IdentityExists(s())), ExitCode::CantCreat);
    assert_eq!(for_error(&Error::SecretExists(s())), ExitCode::CantCreat);
    assert_eq!(for_error(&Error::InvalidPath(s())), ExitCode::Usage);
    assert_eq!(for_error(&Error::InvalidRecipient(s())), ExitCode::Usage);
    assert_eq!(for_error(&Error::InvalidArgument(s())), ExitCode::Usage);
    assert_eq!(for_error(&Error::InvalidTotp(s())), ExitCode::DataErr);
    assert_eq!(for_error(&Error::Tampered(s())), ExitCode::DataErr);
    assert_eq!(for_error(&Error::Encrypt(s())), ExitCode::Software);
    assert_eq!(for_error(&Error::Decrypt(s())), ExitCode::Software);
    assert_eq!(for_error(&Error::NoUserDir), ExitCode::Software);
    assert_eq!(for_error(&Error::Io(s())), ExitCode::Failure);
    assert_eq!(for_error(&Error::Command(s())), ExitCode::Failure);
}

#[test]
fn failure_exit_status_is_never_zero() {
    for e in [Error::WrongPassphrase, Error::NoUserDir, Error::Io("e".to_string())] {
        assert_ne!(for_error(&e).as_u8(), 0);
    }
}

#[test]
fn json_mode_unset_is_false() {
    let m = JsonMode::new();
    assert!(!is_json(&m));
}

#[test]
fn json_mode_first_init_wins() {
    let mut m = JsonMode::new();
    init(&mut m, true);
    assert!(is_json(&m));
    init(&mut m, false);
    assert!(is_json(&m));
    let mut m2 = JsonMode::new();
    init(&mut m2, false);
    init(&mut m2, true);
    assert!(!is_json(&m2));
}

#[test]
fn interactive_only_names_the_command() {
    assert_eq!(
        interactive_only("passwd"),
        Error::InvalidArgument("`passwd` is interactive and cannot run in --json mode".to_string())
    );
}
