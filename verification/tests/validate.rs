use lyrebird::rename_plan::{PlanEntry, RenamePlan};
use lyrebird::validate::{
    target_path_issues, validate, verdict, DurationCheck, Issue, Probe, Severity,
};

fn entry(line: u64, old: &str, new: &str) -> PlanEntry {
    PlanEntry {
        line,
        plan: RenamePlan {
            old: old.to_string(),
            new: new.to_string(),
            expected_duration_secs: None,
        },
    }
}

fn probe(source_exists: bool, target_exists: bool) -> Probe {
    Probe { source_exists, target_exists, duration: DurationCheck::NotChecked }
}

fn errors_of(issues: &[Issue]) -> Vec<&str> {
    issues
        .iter()
        .filter(|i| i.severity == Severity::Error)
        .map(|i| i.message.as_str())
        .collect()
}

#[test]
fn checks_target_path_shape() {
    let error_targets = ["a//b.mkv", "../up.mkv", "./here.mkv", "/media//tv/x.mkv"];
    for target in error_targets {
        assert!(
            target_path_issues(target)
                .iter()
                .any(|(s, _)| *s == Severity::Error),
            "expected error for {target}"
        );
    }

    let warning_targets = ["has|pipe.mkv", "wrong.avi"];
    for target in warning_targets {
        let issues = target_path_issues(target);
        assert!(
            issues.iter().all(|(s, _)| *s == Severity::Warning) && !issues.is_empty(),
            "expected warning-only for {target}"
        );
    }

    assert!(target_path_issues("Show (2020)/Season 01/Show - s01e01 - Pilot.mkv").is_empty());
    assert!(target_path_issues("Movie (1980)/Movie (1980).MP4").is_empty());
    // Absolute targets come from LYREBIRD_TV_ROOT / LYREBIRD_MOVIE_ROOT.
    assert!(target_path_issues("/media/tv/Show (2020)/Season 01/Ep.mkv").is_empty());
}

#[test]
fn target_path_messages() {
    assert_eq!(
        target_path_issues("a/ /b.avi"),
        vec![
            (Severity::Error, "target 'a/ /b.avi' contains an empty path component".to_string()),
            (
                Severity::Warning,
                "target 'a/ /b.avi' has an unexpected extension (expected one of mkv, mp4)".to_string()
            ),
        ]
    );
    assert_eq!(
        target_path_issues("x/../y?.mkv"),
        vec![
            (Severity::Error, "target 'x/../y?.mkv' contains a '..' path component".to_string()),
            (
                Severity::Warning,
                "target component 'y?.mkv' contains characters that are illegal on some filesystems"
                    .to_string()
            ),
        ]
    );
    // The Kelvin sign lowercases to `k`.
    assert!(target_path_issues("a.m\u{212a}v").is_empty());
    assert_eq!(target_path_issues(".mkv").len(), 1);
}

#[test]
fn detects_duplicates_and_noops() {
    let entries = [
        entry(1, "a.mkv", "New (2020)/New.mkv"),
        entry(2, "a.mkv", "Other (2020)/Other.mkv"), // duplicate source
        entry(3, "b.mkv", "New (2020)/New.mkv"),     // duplicate target, missing source
        entry(4, "a.mkv", "a.mkv"),                  // no-op (and dup source)
    ];
    let probes = [probe(true, false), probe(true, false), probe(false, false), probe(true, true)];
    let issues = validate(&entries, &probes);
    let errors = errors_of(&issues);

    assert!(errors
        .iter()
        .any(|m| m.contains("already appears on line 1")));
    assert!(errors.iter().any(|m| m.contains("collides with line 1")));
    assert!(errors.iter().any(|m| m.contains("'b.mkv' does not exist")));
    assert!(errors
        .iter()
        .any(|m| m.contains("source and target are identical")));
    // An existing target is no error when it is the source itself.
    assert!(!errors.iter().any(|m| m.contains("already exists")));
}

#[test]
fn detects_existing_target() {
    let entries = [entry(1, "a.mkv", "Show (2020)/taken.mkv")];
    let issues = validate(&entries, &[probe(true, true)]);
    assert!(errors_of(&issues)
        .iter()
        .any(|m| m.contains("already exists")));
}

#[test]
fn duration_outcomes_become_issues() {
    let mut e = entry(7, "a.mkv", "A/a.mkv");
    e.plan.expected_duration_secs = Some(1320);
    let mismatch = Probe {
        source_exists: true,
        target_exists: false,
        duration: DurationCheck::Mismatch {
            actual: "600".to_string(),
            diff: "720".to_string(),
            allowed: "132".to_string(),
        },
    };
    let issues = validate(&[e.clone()], &[mismatch]);
    assert_eq!(issues.len(), 1);
    assert_eq!(
        issues[0].render(),
        "ERROR line 7: 'a.mkv' duration 600s differs from expected 1320s by 720s (allowed 132s) \u{2014} possible mismatch with 'A/a.mkv'"
    );
    let unreadable = Probe {
        source_exists: true,
        target_exists: false,
        duration: DurationCheck::Unreadable { reason: "ffprobe failed".to_string() },
    };
    let issues = validate(&[e.clone()], &[unreadable]);
    assert_eq!(issues[0].severity, Severity::Warning);
    assert_eq!(issues[0].render(), "WARNING line 7: could not read duration of 'a.mkv': ffprobe failed");
    let fine = Probe { source_exists: true, target_exists: false, duration: DurationCheck::WithinTolerance };
    assert!(validate(&[e], &[fine]).is_empty());
}

#[test]
fn verdict_counts_errors_and_lets_warnings_through() {
    let issue = |severity, line| Issue { severity, line, message: "m".to_string() };
    assert_eq!(verdict(&[]), Ok(()));
    assert_eq!(verdict(&[issue(Severity::Warning, 2)]), Ok(()));
    assert_eq!(
        verdict(&[issue(Severity::Error, 2), issue(Severity::Warning, 3), issue(Severity::Error, 4)]),
        Err("2 error(s) found — fix the plan before applying".to_string())
    );
}
