use atomic_git::error::CliError;
use atomic_git::ref_mapping::{
    baseline_mapping, classify_mapping_direction, containment_commits, divergence_notice,
    mapped_local_ref, mapped_ref_for_view, mapped_ref_tip_name, persist_diverged_status,
    publication_source, publication_source_ref, publication_target, publishable_scope,
    published_mapping, record_remote_push_observation, refresh_mapping_observation, report_row,
    reports_unmapped, status_report, unpersisted_mapping, AddedCommits, Checkpoint, RefMapping, RefSyncStatus,
    ThreeWayAction, ViewScope,
};

fn git_message(error: CliError) -> String {
    match error {
        CliError::GitError { message } => message,
        other => panic!("expected a Git error, got {:?}", other),
    }
}

fn baseline() -> RefMapping {
    baseline_mapping(7, "dev", ViewScope::Draft, false, Some("T"), "S")
}

#[test]
fn the_scope_of_a_view_gives_its_ref() {
    assert_eq!(mapped_local_ref(ViewScope::Shared, "main"), "refs/heads/main");
    assert_eq!(mapped_local_ref(ViewScope::Draft, "dev"), "refs/atomic/views/dev");
    assert_eq!(mapped_ref_for_view(ViewScope::Draft, "git/abc", true), None);
}

#[test]
fn a_baseline_takes_both_sides_as_they_stand() {
    let m = baseline();
    assert_eq!(m.view_id, 7);
    assert_eq!(m.local_ref.as_deref(), Some("refs/atomic/views/dev"));
    assert_eq!(m.last_observed_local.as_deref(), Some("T"));
    assert_eq!(m.last_exported.as_deref(), Some("T"));
    assert_eq!(m.last_exported_state, None);
    assert_eq!(m.last_observed_atomic.as_deref(), Some("S"));
    assert_eq!(m.status, RefSyncStatus::Synchronized);
}

#[test]
fn a_refresh_binds_only_a_verified_tip_that_is_still_live() {
    let mut before = record_remote_push_observation(
        Some(&baseline()),
        7,
        "dev",
        ViewScope::Draft,
        "origin",
        "refs/heads/dev",
        "R",
        "S1",
    );
    before.last_exported_state = Some("OLD".to_string());
    let refresh = |tip: Option<&str>, exported: Option<&str>| {
        refresh_mapping_observation(
            Some(&before),
            7,
            "dev",
            ViewScope::Draft,
            false,
            tip,
            exported,
            "S2",
        )
    };
    let bound = refresh(Some("N"), Some("N"));
    assert_eq!(bound.last_exported.as_deref(), Some("N"));
    assert_eq!(bound.last_exported_state.as_deref(), Some("S2"));
    let stale = refresh(Some("N"), Some("M"));
    assert_eq!(stale.last_exported.as_deref(), Some("T"));
    assert_eq!(stale.last_exported_state.as_deref(), Some("OLD"));
    assert_eq!(stale.last_observed_local.as_deref(), Some("N"));
    let none = refresh(None, None);
    assert_eq!(none.last_exported.as_deref(), Some("T"));
    // The remote pair and its observation are kept.
    assert_eq!(none.last_observed_remote.as_deref(), Some("R"));
    assert_eq!(none.remote.unwrap().reference, "refs/heads/dev");
}

#[test]
fn a_published_draft_stays_on_its_branch() {
    let published = published_mapping(
        &baseline(),
        7,
        "dev",
        ViewScope::Draft,
        "refs/heads/feature",
        "C",
        "S",
    );
    assert_eq!(published.last_exported.as_deref(), Some("C"));
    assert_eq!(published.last_exported_state.as_deref(), Some("S"));
    let later = refresh_mapping_observation(
        Some(&published),
        7,
        "dev",
        ViewScope::Draft,
        false,
        Some("D"),
        None,
        "S2",
    );
    assert_eq!(later.local_ref.as_deref(), Some("refs/heads/feature"));
    assert_eq!(
        mapped_ref_tip_name(Some(&published), ViewScope::Draft, "dev", false).as_deref(),
        Some("refs/heads/feature")
    );
    assert_eq!(publication_source_ref(&published, "dev"), "refs/heads/feature");
}

#[test]
fn a_publication_is_create_only() {
    assert_eq!(publication_target("dev", "feature", None).unwrap(), "refs/heads/feature");
    assert_eq!(
        git_message(publication_target("dev", "feature", Some(Some("T"))).unwrap_err()),
        "refusing to publish view 'dev': target branch 'refs/heads/feature' already exists at T; publication is create-only — delete or rename the branch first"
    );
    assert!(git_message(publication_target("dev", "feature", Some(None)).unwrap_err())
        .contains("already exists at <symbolic>;"));
    assert!(publishable_scope("dev", ViewScope::Draft).is_ok());
    assert_eq!(
        git_message(publishable_scope("main", ViewScope::Shared).unwrap_err()),
        "view 'main' is shared and already maps to a Git ref; publish applies to Draft views"
    );
}

#[test]
fn only_the_verified_projection_is_published() {
    let checkpoint = |view: &str, head: &str| Checkpoint {
        view: view.to_string(),
        git_head: head.to_string(),
    };
    assert_eq!(
        publication_source("dev", Some("C"), Some(&checkpoint("dev", "C"))).unwrap(),
        "C"
    );
    let refusal = |commit: Option<&str>, c: Option<&Checkpoint>| {
        git_message(publication_source("dev", commit, c).unwrap_err())
    };
    assert_eq!(
        refusal(None, None),
        "view 'dev' has no projection commit to publish; run 'atomic git bridge reconcile' or record first"
    );
    assert!(refusal(Some("C"), None).contains("there is no verified bridge checkpoint"));
    assert!(refusal(Some("C"), Some(&checkpoint("main", "C")))
        .contains("the verified bridge checkpoint names view 'main'"));
    assert!(refusal(Some("C"), Some(&checkpoint("dev", "D"))).contains(
        "the candidate publication commit C is not the verified projection commit D"
    ));
}

#[test]
fn divergence_is_told_without_moving_anything() {
    let mut m = baseline();
    assert_eq!(divergence_notice(&m, true), None);
    assert!(divergence_notice(&m, false).unwrap().starts_with(
        "ref mapping for deleted view 'dev' is Unrepresentable: its Git ref 'refs/atomic/views/dev' was left untouched. "
    ));
    m = persist_diverged_status(&m);
    assert_eq!(m.status, RefSyncStatus::Diverged);
    assert_eq!(m.last_observed_local.as_deref(), Some("T"));
    assert!(divergence_notice(&m, true)
        .unwrap()
        .starts_with("ref mapping for view 'dev' is Diverged: "));
}

#[test]
fn an_unprovable_movement_proves_nothing() {
    let added = AddedCommits::Added(vec!["a".to_string()]);
    assert_eq!(containment_commits(&added), Some(vec!["a".to_string()]));
    assert_eq!(containment_commits(&AddedCommits::NoMovement), Some(vec![]));
    let unprovable = AddedCommits::Unprovable("why".to_string());
    assert_eq!(containment_commits(&unprovable), None);
    let c = classify_mapping_direction(&added, Some(true), Some(false));
    assert_eq!((c.atomic_contains_git, c.git_contains_atomic), (Some(true), Some(false)));
    let c = classify_mapping_direction(&unprovable, Some(true), Some(true));
    assert_eq!((c.atomic_contains_git, c.git_contains_atomic), (None, None));
}

#[test]
fn a_report_shows_the_live_direction() {
    let row = |action: Option<ThreeWayAction>| report_row(RefSyncStatus::Synchronized, action);
    assert_eq!(
        row(Some(ThreeWayAction::Noop)),
        (RefSyncStatus::Synchronized, "no action needed")
    );
    assert_eq!(
        row(Some(ThreeWayAction::Import)),
        (
            RefSyncStatus::GitAhead,
            "run 'atomic git bridge reconcile' to import the Git movement"
        )
    );
    assert_eq!(row(Some(ThreeWayAction::Export)).0, RefSyncStatus::AtomicAhead);
    assert_eq!(row(Some(ThreeWayAction::Diverged)).0, RefSyncStatus::Diverged);
    assert_eq!(row(Some(ThreeWayAction::Unrepresentable)).0, RefSyncStatus::Unrepresentable);
    assert_eq!(row(None).0, RefSyncStatus::Unrepresentable);
    assert!(row(None).1.starts_with("view no longer exists; its Git ref was left untouched."));
}

#[test]
fn a_report_names_what_is_missing() {
    let lines = status_report(
        &unpersisted_mapping("dev", ViewScope::Draft, true),
        false,
        "draft",
        "synchronized",
        "no action needed",
    );
    assert_eq!(
        lines,
        vec![
            "unpersisted dev",
            "  scope:       draft",
            "  local ref:   <none>",
            "  last observed local:   <none>",
            "  last observed atomic:  <none>",
            "  last exported:         <none>",
            "  status:      synchronized",
            "  remediation: no action needed",
        ]
    );
}

#[test]
fn the_current_view_is_reported_even_without_a_mapping() {
    let mappings = vec![baseline()];
    assert!(reports_unmapped(&mappings, "topic", true));
    assert!(!reports_unmapped(&mappings, "topic", false));
    assert!(!reports_unmapped(&mappings, "dev", true));
    assert!(reports_unmapped(&vec![], "dev", true));
}
