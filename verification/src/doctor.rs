//! The `ks doctor` health report: a list of pass/fail checks and free-form
//! notes, and the exit status they add up to.
use vstd::prelude::*;

use crate::text::{chars_of, decimal, decimal_string, find_from, find_in, string_of, trim, trimmed};

verus! {

/// One check of the report.
#[derive(Debug)]
pub struct CheckLine {
    /// What was checked.
    pub label: String,
    /// Whether it passed.
    pub ok: bool,
    /// Detail shown next to the outcome.
    pub detail: String,
}

/// The texts of a check line.
pub open spec fn line_view(l: CheckLine) -> (Seq<char>, bool, Seq<char>) {
    (l.label@, l.ok, l.detail@)
}

/// How many of `checks` failed.
pub open spec fn failed_count(checks: Seq<CheckLine>) -> nat
    decreases checks.len(),
{
    if checks.len() == 0 {
        0
    } else {
        failed_count(checks.drop_last()) + if checks.last().ok {
            0nat
        } else {
            1nat
        }
    }
}

/// `n`, or `usize::MAX` when `n` is larger: a saturating count.
pub open spec fn capped(n: nat) -> nat {
    if n <= usize::MAX {
        n
    } else {
        usize::MAX as nat
    }
}

/// `new` is `old` with one more check, whose texts are `v`, and the same
/// notes; the failure counter grows by one (saturating) when the check failed.
pub open spec fn check_added(old: Report, new: Report, v: (Seq<char>, bool, Seq<char>)) -> bool {
    &&& new.spec_checks().len() == old.spec_checks().len() + 1
    &&& forall|i: int|
        0 <= i < old.spec_checks().len() ==> #[trigger] new.spec_checks()[i]
            == old.spec_checks()[i]
    &&& line_view(new.spec_checks().last()) == v
    &&& new.spec_notes() == old.spec_notes()
    &&& new.spec_failures() == if v.1 {
        old.spec_failures()
    } else {
        capped(old.spec_failures() + 1)
    }
}

/// Accumulated check results and notes.
pub struct Report {
    checks: Vec<CheckLine>,
    notes: Vec<String>,
    failures: usize,
}

impl Report {
    /// The checks recorded so far, in order.
    pub closed spec fn spec_checks(self) -> Seq<CheckLine> {
        self.checks@
    }

    /// The notes recorded so far, in order.
    pub closed spec fn spec_notes(self) -> Seq<Seq<char>> {
        self.notes@.map_values(|n: String| n@)
    }

    /// The failure counter: the number of failed checks (saturating).
    pub closed spec fn spec_failures(self) -> nat {
        self.failures as nat
    }

    /// The failure counter is the number of failed checks recorded, capped
    /// at `usize::MAX`.
    pub open spec fn wf(self) -> bool {
        self.spec_failures() == capped(failed_count(self.spec_checks()))
    }

    /// An empty report.
    pub fn new() -> (r: Report)
        ensures
            r.wf(),
            r.spec_checks().len() == 0,
            r.spec_notes().len() == 0,
            r.spec_failures() == 0,
    {
        Report { checks: Vec::new(), notes: Vec::new(), failures: 0 }
    }

    /// Records one check; a failed check adds one to the failure count.
    pub fn check(&mut self, label: &str, ok: bool, detail: &str)
        requires
            old(self).wf(),
        ensures
            final(self).wf(),
            check_added(*old(self), *final(self), (label@, ok, detail@)),
    {
        let ghost before = self.checks@;
        if !ok {
            self.failures = self.failures.saturating_add(1);
        }
        self.checks.push(CheckLine { label: label.to_owned(), ok, detail: detail.to_owned() });
        assert(self.checks@.drop_last() == before);
    }

    /// Records a free-form note; notes never change the outcome.
    pub fn note(&mut self, detail: &str)
        requires
            old(self).wf(),
        ensures
            final(self).wf(),
            final(self).spec_checks() == old(self).spec_checks(),
            final(self).spec_notes() == old(self).spec_notes().push(detail@),
            final(self).spec_failures() == old(self).spec_failures(),
    {
        let ghost before = self.notes@;
        self.notes.push(detail.to_owned());
        assert(self.notes@.map_values(|n: String| n@) == before.map_values(|n: String| n@).push(
            detail@,
        ));
    }

    /// The checks recorded so far.
    pub fn checks(&self) -> (r: &Vec<CheckLine>)
        ensures
            r@ == self.spec_checks(),
    {
        &self.checks
    }

    /// The notes recorded so far.
    pub fn notes(&self) -> (r: &Vec<String>)
        ensures
            r@.map_values(|n: String| n@) == self.spec_notes(),
    {
        &self.notes
    }

    /// The number of failed checks (saturating).
    pub fn failures(&self) -> (r: usize)
        ensures
            r == self.spec_failures(),
            self.wf() ==> r as nat == capped(failed_count(self.spec_checks())),
    {
        self.failures
    }

    /// The exit status of `ks doctor`: 0 when every check passed, else 1.
    pub fn finish(&self) -> (code: u8)
        requires
            self.wf(),
        ensures
            code == (if failed_count(self.spec_checks()) == 0 {
                0u8
            } else {
                1u8
            }),
            code == 0 <==> self.spec_failures() == 0,
    {
        if self.failures == 0 {
            0
        } else {
            1
        }
    }
}

/// The report passes exactly when no recorded check failed: notes, and checks
/// that passed, never make `ks doctor` fail.
pub proof fn lemma_failed_count_zero(checks: Seq<CheckLine>)
    ensures
        failed_count(checks) == 0 <==> forall|i: int| 0 <= i < checks.len() ==> #[trigger] checks[i].ok,
    decreases checks.len(),
{
    if checks.len() > 0 {
        lemma_failed_count_zero(checks.drop_last());
        if failed_count(checks) == 0 {
            assert forall|i: int| 0 <= i < checks.len() implies #[trigger] checks[i].ok by {
                if i < checks.len() - 1 {
                    assert(checks.drop_last()[i] == checks[i]);
                }
            }
        }
        if forall|i: int| 0 <= i < checks.len() ==> #[trigger] checks[i].ok {
            assert forall|i: int| 0 <= i < checks.drop_last().len() implies #[trigger] checks.drop_last()[i].ok by {
                assert(checks.drop_last()[i] == checks[i]);
            }
            assert(checks[checks.len() - 1].ok);
        }
    }
}

/// The note recorded when the identity check is skipped.
pub open spec fn unlock_skipped_note() -> Seq<char> {
    "identity unlocks: skipped (set KS_PASSPHRASE for non-interactive checks)"@
}

/// Whether `ks doctor` tries to unlock the identity, given the value of
/// `KS_PASSPHRASE` (`None` when unset) and whether stdin is a terminal: only
/// with a non-empty passphrase or an interactive terminal, so that the check
/// never blocks a script. A skipped check is recorded as a note.
pub fn identity_check(report: &mut Report, passphrase_env: Option<&str>, interactive: bool) -> (r:
    bool)
    requires
        old(report).wf(),
    ensures
        final(report).wf(),
        r == ((passphrase_env is Some && passphrase_env->0@.len() > 0) || interactive),
        final(report).spec_checks() == old(report).spec_checks(),
        final(report).spec_failures() == old(report).spec_failures(),
        r ==> final(report).spec_notes() == old(report).spec_notes(),
        !r ==> final(report).spec_notes() == old(report).spec_notes().push(unlock_skipped_note()),
{
    let has_env = match passphrase_env {
        Some(v) => !v.is_empty(),
        None => false,
    };
    if has_env || interactive {
        return true;
    }
    report.note("identity unlocks: skipped (set KS_PASSPHRASE for non-interactive checks)");
    false
}

/// Records the identity checks once an unlock was attempted: whether it
/// succeeded (`unlocked` holds the failure's message otherwise) and, after a
/// success, whether the identity's public key is in the recipient list
/// (`membership`: whether it is, and the key; `None` when the list could not
/// be read).
pub fn record_unlock(report: &mut Report, unlocked: Result<(), &str>, membership: Option<(bool, &str)>)
    requires
        old(report).wf(),
    ensures
        final(report).wf(),
        unlocked is Err ==> check_added(
            *old(report),
            *final(report),
            ("identity unlocks"@, false, unlocked->Err_0@),
        ),
        unlocked is Ok && membership is None ==> check_added(
            *old(report),
            *final(report),
            ("identity unlocks"@, true, "ok (env or prompt)"@),
        ),
        unlocked is Ok && membership is Some ==> exists|mid: Report|
            #[trigger] check_added(
                *old(report),
                mid,
                ("identity unlocks"@, true, "ok (env or prompt)"@),
            ) && check_added(
                mid,
                *final(report),
                ("identity is in .age-recipients"@, (membership->0).0, (membership->0).1@),
            ),
{
    match unlocked {
        Err(e) => {
            report.check("identity unlocks", false, e);
        },
        Ok(()) => {
            report.check("identity unlocks", true, "ok (env or prompt)");
            let ghost mid = *report;
            match membership {
                Some((present, own)) => {
                    report.check("identity is in .age-recipients", present, own);
                    assert(check_added(
                        *old(report),
                        mid,
                        ("identity unlocks"@, true, "ok (env or prompt)"@),
                    ));
                },
                None => {},
            }
        },
    }
}

/// Records the permission check: one passing check when there is no issue,
/// else one failing check per issue.
pub fn check_permissions(report: &mut Report, issues: &Vec<String>)
    requires
        old(report).wf(),
    ensures
        final(report).wf(),
        final(report).spec_notes() == old(report).spec_notes(),
        issues@.len() == 0 ==> check_added(
            *old(report),
            *final(report),
            ("file permissions owner-only"@, true, "ok"@),
        ),
        issues@.len() > 0 ==> final(report).spec_checks().len() == old(report).spec_checks().len()
            + issues@.len(),
        issues@.len() > 0 ==> final(report).spec_failures() == capped(
            old(report).spec_failures() + issues@.len(),
        ),
        forall|i: int|
            0 <= i < old(report).spec_checks().len() ==> #[trigger] final(report).spec_checks()[i]
                == old(report).spec_checks()[i],
        forall|i: int|
            0 <= i < issues@.len() ==> line_view(
                #[trigger] final(report).spec_checks()[old(report).spec_checks().len() + i],
            ) == ("file permissions"@, false, issues@[i]@),
{
    if issues.len() == 0 {
        report.check("file permissions owner-only", true, "ok");
        return;
    }
    let ghost start = report.spec_checks();
    for i in 0..issues.len()
        invariant
            report.wf(),
            report.spec_notes() == old(report).spec_notes(),
            start == old(report).spec_checks(),
            report.spec_checks().len() == start.len() + i,
            report.spec_failures() == capped(old(report).spec_failures() + i as nat),
            forall|k: int| 0 <= k < start.len() ==> #[trigger] report.spec_checks()[k] == start[k],
            forall|k: int|
                0 <= k < i ==> line_view(#[trigger] report.spec_checks()[start.len() + k]) == (
                    "file permissions"@,
                    false,
                    issues@[k]@,
                ),
    {
        let ghost prev = report.spec_checks();
        report.check("file permissions", false, issues[i].as_str());
        assert forall|k: int| 0 <= k < i + 1 implies line_view(
            #[trigger] report.spec_checks()[start.len() + k],
        ) == ("file permissions"@, false, issues@[k]@) by {
            if k < i {
                assert(report.spec_checks()[start.len() + k] == prev[start.len() + k]);
            }
        }
    }
}

/// How many secrets `ks doctor` decrypts as a sample.
pub const SAMPLE: usize = 20;

/// The label of the sampled-secrets check.
pub open spec fn sample_label(checked: nat) -> Seq<char> {
    "secrets decrypt & verify ("@ + decimal(checked) + " sampled)"@
}

/// The detail of the sampled-secrets check.
pub open spec fn sample_detail(bad: nat) -> Seq<char> {
    if bad == 0 {
        "ok"@
    } else {
        decimal(bad) + " failed integrity/decrypt"@
    }
}

/// How many of `outcomes` are failures (`false`).
pub open spec fn failed_in(outcomes: Seq<bool>) -> nat
    decreases outcomes.len(),
{
    if outcomes.len() == 0 {
        0
    } else {
        failed_in(outcomes.drop_last()) + if outcomes.last() {
            0nat
        } else {
            1nat
        }
    }
}

/// How many secrets of a store of `total` are sampled.
pub open spec fn sampled(total: nat) -> nat {
    if total < SAMPLE {
        total
    } else {
        SAMPLE as nat
    }
}

/// Records the outcome of decrypting a sample of the store's secrets: of
/// `total` secrets the first [`SAMPLE`] are tried, and `outcomes` holds, for
/// each tried secret in order, whether it decrypted and verified. An empty
/// store records nothing.
pub fn check_secret_sample(report: &mut Report, total: usize, outcomes: &Vec<bool>)
    requires
        old(report).wf(),
        outcomes@.len() == sampled(total as nat),
    ensures
        final(report).wf(),
        total == 0 ==> *final(report) == *old(report),
        total > 0 ==> check_added(
            *old(report),
            *final(report),
            (
                sample_label(sampled(total as nat)),
                failed_in(outcomes@) == 0,
                sample_detail(failed_in(outcomes@)),
            ),
        ),
{
    if total == 0 {
        return;
    }
    let mut bad: usize = 0;
    for i in 0..outcomes.len()
        invariant
            bad as nat == failed_in(outcomes@.take(i as int)),
            bad <= i,
    {
        assert(outcomes@.take(i + 1).drop_last() == outcomes@.take(i as int));
        if !outcomes[i] {
            bad = bad + 1;
        }
    }
    assert(outcomes@.take(outcomes.len() as int) == outcomes@);
    let checked: usize = if total < SAMPLE {
        total
    } else {
        SAMPLE
    };
    let mut label = "secrets decrypt & verify (".to_owned();
    label.append(decimal_string(checked as u64).as_str());
    label.append(" sampled)");
    let detail = if bad == 0 {
        "ok".to_owned()
    } else {
        let mut d = decimal_string(bad as u64);
        d.append(" failed integrity/decrypt");
        d
    };
    report.check(label.as_str(), bad == 0, detail.as_str());
}

/// The note for an interrupted recipient rotation.
pub open spec fn staging_note(path: Seq<char>) -> Seq<char> {
    "leftover rotation staging at "@ + path + " — safe to delete (a rotation was interrupted)"@
}

/// The note for leftover scratch files.
pub open spec fn temps_note(count: nat) -> Seq<char> {
    decimal(count) + " leftover *.tmp scratch file(s) under the store — safe to delete"@
}

/// Records leftover runtime artifacts as notes: the staging directory of an
/// interrupted rotation (`staging`, when it exists) and the number of `*.tmp`
/// scratch files, when there are any.
pub fn note_runtime_artifacts(report: &mut Report, staging: Option<&str>, temps: usize)
    requires
        old(report).wf(),
    ensures
        final(report).wf(),
        final(report).spec_checks() == old(report).spec_checks(),
        final(report).spec_failures() == old(report).spec_failures(),
        final(report).spec_notes() == old(report).spec_notes() + (match staging {
            Some(p) => seq![staging_note(p@)],
            None => Seq::empty(),
        }) + (if temps > 0 {
            seq![temps_note(temps as nat)]
        } else {
            Seq::empty()
        }),
{
    let ghost start = report.spec_notes();
    match staging {
        Some(p) => {
            let mut n = "leftover rotation staging at ".to_owned();
            n.append(p);
            n.append(" — safe to delete (a rotation was interrupted)");
            report.note(n.as_str());
        },
        None => {},
    }
    let ghost mid = report.spec_notes();
    if temps > 0 {
        let mut n = decimal_string(temps as u64);
        n.append(" leftover *.tmp scratch file(s) under the store — safe to delete");
        report.note(n.as_str());
    }
    assert(report.spec_notes() == mid + (if temps > 0 {
        seq![temps_note(temps as nat)]
    } else {
        Seq::<Seq<char>>::empty()
    }));
}

/// The first line of `text` (everything before the first `\n`).
pub open spec fn first_line(text: Seq<char>) -> Seq<char> {
    match find_from(text, seq!['\n'], 0) {
        Some(k) => text.take(k),
        None => text,
    }
}

/// The note for the git branch line of `git status -sb` output.
pub open spec fn git_note(status: Seq<char>) -> Seq<char> {
    "git "@ + trim(first_line(status))
}

/// Records the state of the store's git repository. Outside `--json` mode a
/// successful status is shown in full by the caller and nothing is recorded.
pub fn report_git(report: &mut Report, is_repo: bool, status: Result<&str, &str>, json: bool)
    requires
        old(report).wf(),
    ensures
        final(report).wf(),
        !is_repo ==> final(report).spec_checks() == old(report).spec_checks()
            && final(report).spec_failures() == old(report).spec_failures()
            && final(report).spec_notes() == old(report).spec_notes().push(
            "git: not a repository"@,
        ),
        is_repo && status is Ok && json ==> final(report).spec_checks() == old(
            report,
        ).spec_checks() && final(report).spec_failures() == old(report).spec_failures()
            && final(report).spec_notes() == old(report).spec_notes().push(
            git_note(status->Ok_0@),
        ),
        is_repo && status is Ok && !json ==> *final(report) == *old(report),
        is_repo && status is Err ==> check_added(
            *old(report),
            *final(report),
            ("git status"@, false, status->Err_0@),
        ),
{
    if !is_repo {
        report.note("git: not a repository");
        return;
    }
    match status {
        Ok(out) => {
            if json {
                let v = chars_of(out);
                let nl: Vec<char> = vec!['\n'];
                assert(nl@ == seq!['\n']);
                let line: Vec<char> = match find_in(&v, &nl, 0) {
                    Some(k) => {
                        proof {
                            crate::text::lemma_find_from(v@, nl@, 0);
                        }
                        let mut l: Vec<char> = Vec::new();
                        let mut j: usize = 0;
                        while j < k
                            invariant
                                j <= k <= v@.len(),
                                l@ == v@.take(j as int),
                            decreases k - j,
                        {
                            l.push(v[j]);
                            assert(v@.take(j + 1) == v@.take(j as int).push(v@[j as int]));
                            j = j + 1;
                        }
                        l
                    },
                    None => v,
                };
                let mut n = "git ".to_owned();
                n.append(string_of(&trimmed(&line)).as_str());
                report.note(n.as_str());
            }
        },
        Err(e) => {
            report.check("git status", false, e);
        },
    }
}

/// What the scratch-file count does with one directory entry.
#[derive(Debug, Clone, Copy, PartialEq, Eq)]
pub enum ScratchEntry {
    /// A visible directory: count inside it.
    Descend,
    /// A `*.tmp` file: count it.
    Count,
    /// Anything else, including hidden directories (`.git`, `.ks-rotate`).
    Skip,
}

/// Classifies a directory entry for the count of `*.tmp` files left by an
/// interrupted atomic write: visible directories are searched, hidden ones
/// skipped, and files count when their extension is `tmp`.
pub fn scratch_entry(is_dir: bool, hidden: bool, extension: Option<&str>) -> (r: ScratchEntry)
    ensures
        is_dir && !hidden ==> r == ScratchEntry::Descend,
        is_dir && hidden ==> r == ScratchEntry::Skip,
        !is_dir ==> r == (if (match extension {
            Some(e) => e@ == "tmp"@,
            None => false,
        }) {
            ScratchEntry::Count
        } else {
            ScratchEntry::Skip
        }),
{
    if is_dir {
        if hidden {
            ScratchEntry::Skip
        } else {
            ScratchEntry::Descend
        }
    } else {
        match extension {
            Some(e) => {
                if e.to_owned() == "tmp".to_owned() {
                    ScratchEntry::Count
                } else {
                    ScratchEntry::Skip
                }
            },
            None => ScratchEntry::Skip,
        }
    }
}

} // verus!
