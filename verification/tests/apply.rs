use lyrebird::apply::{
    apply_step, copy_step, partial_path, ApplyAction, ApplyEvent, ApplyState, CopyAction,
    CopyEvent, CopyState, Failure,
};
use lyrebird::rename_plan::{PlanEntry, RenamePlan};

fn entry(line: u64, old: &str, new: &str) -> PlanEntry {
    PlanEntry {
        line,
        plan: RenamePlan { old: old.to_string(), new: new.to_string(), expected_duration_secs: None },
    }
}

fn failure(parts: &[&str]) -> Failure {
    Failure { chain: parts.iter().map(|p| p.to_string()).collect() }
}

/// Feeds the events in turn, returning the actions asked for.
fn walk(entries: &[PlanEntry], events: Vec<ApplyEvent>) -> Vec<ApplyAction> {
    let mut state = ApplyState::Idle;
    let mut actions = Vec::new();
    for event in events {
        let (next, action) = apply_step(entries, state, event);
        state = next;
        actions.push(action);
    }
    actions
}

#[test]
fn walk_renames_each_entry_in_order() {
    let entries = [entry(2, "a.mkv", "Show/A.mkv"), entry(3, "b.mkv", "Show/B.mkv")];
    let actions = walk(
        &entries,
        vec![
            ApplyEvent::Started,
            ApplyEvent::ParentMade,
            ApplyEvent::TargetExists(false),
            ApplyEvent::Renamed,
            ApplyEvent::Logged,
            ApplyEvent::ParentMade,
            ApplyEvent::TargetExists(false),
            ApplyEvent::Renamed,
            ApplyEvent::Logged,
            ApplyEvent::Logged,
        ],
    );
    assert_eq!(
        actions,
        vec![
            ApplyAction::EnsureParent(0),
            ApplyAction::CheckTarget(0),
            ApplyAction::Rename(0),
            ApplyAction::Log("renamed: a.mkv -> Show/A.mkv".to_string()),
            ApplyAction::EnsureParent(1),
            ApplyAction::CheckTarget(1),
            ApplyAction::Rename(1),
            ApplyAction::Log("renamed: b.mkv -> Show/B.mkv".to_string()),
            ApplyAction::Done,
            ApplyAction::Done,
        ]
    );
}

#[test]
fn walk_of_empty_plan_is_done() {
    assert_eq!(walk(&[], vec![ApplyEvent::Started]), vec![ApplyAction::Done]);
}

#[test]
fn walk_refuses_to_overwrite() {
    let entries = [entry(2, "a.mkv", "A.mkv"), entry(3, "b.mkv", "B.mkv")];
    let actions = walk(
        &entries,
        vec![
            ApplyEvent::Started,
            ApplyEvent::ParentMade,
            ApplyEvent::TargetExists(true),
            ApplyEvent::Logged,
        ],
    );
    assert_eq!(
        actions[2],
        ApplyAction::Fail(failure(&[
            "target 'A.mkv' appeared since validation — aborting before overwriting it"
        ]))
    );
    assert_eq!(actions[3], ApplyAction::Done);
}

#[test]
fn walk_copies_across_filesystems() {
    let entries = [entry(2, "a.mkv", "/media/A.mkv")];
    let actions = walk(
        &entries,
        vec![
            ApplyEvent::Started,
            ApplyEvent::ParentMade,
            ApplyEvent::TargetExists(false),
            ApplyEvent::RenameFailed { crosses_devices: true, error: "EXDEV".to_string() },
            ApplyEvent::CopyFinished(Ok(())),
            ApplyEvent::Logged,
        ],
    );
    assert_eq!(actions[3], ApplyAction::CopyThenRemove(0));
    assert_eq!(
        actions[4],
        ApplyAction::Log("copied: a.mkv -> /media/A.mkv (cross-filesystem)".to_string())
    );
    assert_eq!(actions[5], ApplyAction::Done);
}

#[test]
fn walk_reports_each_failure_with_its_cause() {
    let entries = [entry(2, "a.mkv", "A/a.mkv")];
    let parent = walk(
        &entries,
        vec![
            ApplyEvent::Started,
            ApplyEvent::ParentFailed { parent: "./A".to_string(), error: "denied".to_string() },
        ],
    );
    assert_eq!(parent[1], ApplyAction::Fail(failure(&["could not create directory ./A", "denied"])));
    let rename = walk(
        &entries,
        vec![
            ApplyEvent::Started,
            ApplyEvent::ParentMade,
            ApplyEvent::TargetExists(false),
            ApplyEvent::RenameFailed { crosses_devices: false, error: "denied".to_string() },
        ],
    );
    assert_eq!(
        rename[3],
        ApplyAction::Fail(failure(&["could not rename 'a.mkv' to 'A/a.mkv'", "denied"]))
    );
    let copy = walk(
        &entries,
        vec![
            ApplyEvent::Started,
            ApplyEvent::ParentMade,
            ApplyEvent::TargetExists(false),
            ApplyEvent::RenameFailed { crosses_devices: true, error: "EXDEV".to_string() },
            ApplyEvent::CopyFinished(Err(failure(&["copy failed", "disk full"]))),
        ],
    );
    assert_eq!(
        copy[4],
        ApplyAction::Fail(failure(&[
            "could not copy 'a.mkv' to 'A/a.mkv' (cross-filesystem)",
            "copy failed",
            "disk full"
        ]))
    );
    let out_of_turn = walk(&entries, vec![ApplyEvent::Renamed]);
    assert_eq!(
        out_of_turn[0],
        ApplyAction::Fail(failure(&["unexpected event while applying the plan"]))
    );
}

fn copy_run(events: Vec<CopyEvent>) -> Vec<CopyAction> {
    let mut state = CopyState::Idle;
    let mut actions = Vec::new();
    for event in events {
        let (next, action) = copy_step(state, event);
        state = next;
        actions.push(action);
    }
    actions
}

#[test]
fn copy_moves_into_place_before_removing_source() {
    let actions = copy_run(vec![
        CopyEvent::Started,
        CopyEvent::Copied(Ok(1024)),
        CopyEvent::Sized(Ok(1024)),
        CopyEvent::Moved(Ok(())),
        CopyEvent::SourceRemoved(Ok(())),
        CopyEvent::Cleaned,
    ]);
    assert_eq!(
        actions,
        vec![
            CopyAction::Copy,
            CopyAction::ReadSourceSize,
            CopyAction::MoveIntoPlace,
            CopyAction::RemoveSource,
            CopyAction::Finish(Ok(())),
            CopyAction::Done,
        ]
    );
}

#[test]
fn copy_with_wrong_byte_count_is_cleaned_up() {
    let actions = copy_run(vec![
        CopyEvent::Started,
        CopyEvent::Copied(Ok(10)),
        CopyEvent::Sized(Ok(12)),
        CopyEvent::Cleaned,
    ]);
    assert_eq!(actions[2], CopyAction::RemovePartial);
    assert_eq!(
        actions[3],
        CopyAction::Finish(Err(failure(&["copied 10 bytes but source is 12 bytes"])))
    );
}

#[test]
fn copy_failures_remove_the_partial_file() {
    let cases = vec![
        (
            vec![CopyEvent::Started, CopyEvent::Copied(Err("no space".to_string()))],
            vec!["copy failed", "no space"],
        ),
        (
            vec![CopyEvent::Started, CopyEvent::Copied(Ok(1)), CopyEvent::Sized(Err("gone".to_string()))],
            vec!["gone"],
        ),
        (
            vec![
                CopyEvent::Started,
                CopyEvent::Copied(Ok(1)),
                CopyEvent::Sized(Ok(1)),
                CopyEvent::Moved(Err("busy".to_string())),
            ],
            vec!["could not move copy into place", "busy"],
        ),
        (
            vec![
                CopyEvent::Started,
                CopyEvent::Copied(Ok(1)),
                CopyEvent::Sized(Ok(1)),
                CopyEvent::Moved(Ok(())),
                CopyEvent::SourceRemoved(Err("read-only".to_string())),
            ],
            vec!["copy succeeded but could not remove source", "read-only"],
        ),
    ];
    for (mut events, chain) in cases {
        events.push(CopyEvent::Cleaned);
        let actions = copy_run(events);
        let n = actions.len();
        assert_eq!(actions[n - 2], CopyAction::RemovePartial);
        assert_eq!(actions[n - 1], CopyAction::Finish(Err(failure(&chain))));
    }
}

#[test]
fn partial_copy_sits_beside_target() {
    assert_eq!(partial_path("Show (2020)/Season 01/ep.mkv"), "Show (2020)/Season 01/ep.mkv.lyrebird-partial");
    assert_eq!(partial_path("ep.mkv"), "ep.mkv.lyrebird-partial");
}
