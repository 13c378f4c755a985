use ks_cli::cli::{requested_key, RecipientsCmd};
use ks_cli::doctor::{
    check_permissions, check_secret_sample, identity_check, note_runtime_artifacts, record_unlock,
    report_git,
    scratch_entry, Report, ScratchEntry,
};
use ks_cli::recipients::{add_recipient, contains_recipient, keep_own, without_recipient};

fn v(xs: &[&str]) -> Vec<String> {
    xs.iter().map(|s| s.to_string()).collect()
}

fn lines(r: &Report) -> Vec<(String, bool, String)> {
    r.checks().iter().map(|c| (c.label.clone(), c.ok, c.detail.clone())).collect()
}

#[test]
fn report_passes_iff_no_check_failed() {
    let mut r = Report::new();
    r.check("identity file present", true, "/x");
    r.note("just a note");
    assert_eq!(r.failures(), 0);
    assert_eq!(r.finish(), 0);
    r.check("store directory present", false, "/y");
    assert_eq!(r.failures(), 1);
    assert_eq!(r.finish(), 1);
    r.check("another", false, "z");
    assert_eq!(r.failures(), 2);
    assert_eq!(r.notes(), &v(&["just a note"]));
}

#[test]
fn permission_checks() {
    let mut r = Report::new();
    check_permissions(&mut r, &vec![]);
    assert_eq!(lines(&r), vec![("file permissions owner-only".to_string(), true, "ok".to_string())]);
    let mut r2 = Report::new();
    check_permissions(&mut r2, &v(&["a is 0644", "b is 0755"]));
    assert_eq!(
        lines(&r2),
        vec![
            ("file permissions".to_string(), false, "a is 0644".to_string()),
            ("file permissions".to_string(), false, "b is 0755".to_string()),
        ]
    );
    assert_eq!(r2.finish(), 1);
}

#[test]
fn secret_sample_check() {
    let mut r = Report::new();
    check_secret_sample(&mut r, 0, &vec![]);
    assert!(r.checks().is_empty());
    check_secret_sample(&mut r, 5, &vec![true; 5]);
    let mut sample = vec![true; 20];
    sample[3] = false;
    sample[19] = false;
    check_secret_sample(&mut r, 57, &sample);
    assert_eq!(
        lines(&r),
        vec![
            ("secrets decrypt & verify (5 sampled)".to_string(), true, "ok".to_string()),
            ("secrets decrypt & verify (20 sampled)".to_string(), false, "2 failed integrity/decrypt".to_string()),
        ]
    );
    assert_eq!(r.failures(), 1);
    assert_eq!(r.finish(), 1);
}

#[test]
fn runtime_artifact_notes() {
    let mut r = Report::new();
    note_runtime_artifacts(&mut r, Some("/s/.ks-rotate"), 3);
    note_runtime_artifacts(&mut r, None, 0);
    assert_eq!(
        r.notes(),
        &v(&[
            "leftover rotation staging at /s/.ks-rotate — safe to delete (a rotation was interrupted)",
            "3 leftover *.tmp scratch file(s) under the store — safe to delete",
        ])
    );
    assert_eq!(r.finish(), 0);
}

#[test]
fn git_status_reporting() {
    let mut r = Report::new();
    report_git(&mut r, false, Ok(""), true);
    report_git(&mut r, true, Ok("## main...origin/main\r\n M a.age\n"), true);
    report_git(&mut r, true, Ok("## main\n"), false);
    assert_eq!(r.notes(), &v(&["git: not a repository", "git ## main...origin/main"]));
    report_git(&mut r, true, Err("boom"), false);
    assert_eq!(lines(&r), vec![("git status".to_string(), false, "boom".to_string())]);
}

#[test]
fn scratch_file_classification() {
    assert_eq!(scratch_entry(true, false, None), ScratchEntry::Descend);
    assert_eq!(scratch_entry(true, true, None), ScratchEntry::Skip);
    assert_eq!(scratch_entry(false, false, Some("tmp")), ScratchEntry::Count);
    assert_eq!(scratch_entry(false, false, Some("age")), ScratchEntry::Skip);
    assert_eq!(scratch_entry(false, true, None), ScratchEntry::Skip);
}

#[test]
fn recipient_add_and_remove() {
    let cur = v(&["age1a", "age1b"]);
    assert!(contains_recipient(&cur, "age1b"));
    assert_eq!(add_recipient(&cur, "age1b"), None);
    assert_eq!(add_recipient(&cur, "age1c"), Some(v(&["age1a", "age1b", "age1c"])));
    assert_eq!(without_recipient(&cur, "age1z"), None);
    assert_eq!(without_recipient(&cur, "age1a"), Some(v(&["age1b"])));
    assert_eq!(without_recipient(&v(&["x", "y", "x"]), "x"), Some(v(&["y"])));
}

#[test]
fn own_key_is_kept() {
    assert_eq!(keep_own(v(&["age1b"]), "age1a"), v(&["age1b", "age1a"]));
    assert_eq!(keep_own(v(&["age1a", "age1b"]), "age1a"), v(&["age1a", "age1b"]));
    assert_eq!(keep_own(vec![], "age1a"), v(&["age1a"]));
}

#[test]
fn recipients_command_key_is_trimmed() {
    assert_eq!(requested_key(&RecipientsCmd::Ls), None);
    assert_eq!(requested_key(&RecipientsCmd::Add { pubkey: "  age1xyz\n".to_string() }), Some("age1xyz".to_string()));
    assert_eq!(requested_key(&RecipientsCmd::Rm { pubkey: "age1q".to_string() }), Some("age1q".to_string()));
}

#[test]
fn identity_check_is_skipped_without_passphrase_or_terminal() {
    let mut r = Report::new();
    assert!(identity_check(&mut r, Some("pw"), false));
    assert!(identity_check(&mut r, None, true));
    assert!(r.notes().is_empty());
    assert!(!identity_check(&mut r, Some(""), false));
    assert!(!identity_check(&mut r, None, false));
    assert_eq!(
        r.notes(),
        &v(&[
            "identity unlocks: skipped (set KS_PASSPHRASE for non-interactive checks)",
            "identity unlocks: skipped (set KS_PASSPHRASE for non-interactive checks)",
        ])
    );
    assert!(r.checks().is_empty());
    assert_eq!(r.finish(), 0);
}

#[test]
fn unlock_outcomes_are_recorded() {
    let mut r = Report::new();
    record_unlock(&mut r, Ok(()), Some((false, "age1own")));
    assert_eq!(
        lines(&r),
        vec![
            ("identity unlocks".to_string(), true, "ok (env or prompt)".to_string()),
            ("identity is in .age-recipients".to_string(), false, "age1own".to_string()),
        ]
    );
    assert_eq!(r.failures(), 1);
    let mut r2 = Report::new();
    record_unlock(&mut r2, Err("wrong passphrase"), None);
    assert_eq!(lines(&r2), vec![("identity unlocks".to_string(), false, "wrong passphrase".to_string())]);
    assert_eq!(r2.failures(), 1);
    let mut r3 = Report::new();
    record_unlock(&mut r3, Ok(()), None);
    assert_eq!(r3.failures(), 0);
    assert_eq!(r3.finish(), 0);
}

#[test]
fn notes_and_skips_never_count_as_failures() {
    let mut r = Report::new();
    r.check("a", false, "x");
    note_runtime_artifacts(&mut r, Some("/s/.ks-rotate"), 2);
    identity_check(&mut r, None, false);
    report_git(&mut r, true, Ok("## main\n"), false);
    report_git(&mut r, false, Ok(""), true);
    assert_eq!(r.failures(), 1);
    report_git(&mut r, true, Err("boom"), true);
    assert_eq!(r.failures(), 2);
    assert_eq!(r.finish(), 1);
}
