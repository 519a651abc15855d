use atomic_git::error::CliError;
use atomic_git::publish_run::{PublishAction, PublishRun, PublishStage};
use atomic_git::ref_mapping::{
    Checkpoint, RefMapping, RefSyncStatus, RemotePair, ViewScope,
};

fn message(action: PublishAction) -> String {
    match action {
        PublishAction::Fail { error: CliError::GitError { message } } => message,
        other => panic!("no Git error: {other:?}"),
    }
}

fn checkpoint(view: &str, head: &str) -> Option<Checkpoint> {
    Some(Checkpoint { view: view.to_string(), git_head: head.to_string() })
}

fn mapped(local_ref: Option<&str>) -> RefMapping {
    RefMapping {
        view_id: 7,
        view_name: "topic".to_string(),
        scope: ViewScope::Draft,
        local_ref: local_ref.map(str::to_string),
        remote: Some(RemotePair {
            remote: "origin".to_string(),
            reference: "refs/heads/topic".to_string(),
        }),
        last_observed_local: None,
        last_observed_remote: Some("r0".to_string()),
        last_exported: None,
        last_exported_state: None,
        last_observed_atomic: None,
        status: RefSyncStatus::AtomicAhead,
    }
}

/// A publication of the draft `topic` whose workspace is in order.
fn in_order() -> PublishRun {
    let (mut run, first) = PublishRun::begin("topic".to_string(), "feature".to_string());
    assert!(matches!(first, PublishAction::ReadScope));
    assert!(matches!(
        run.scope_read(ViewScope::Draft, "S1".to_string(), false),
        PublishAction::EnterWorkspace
    ));
    assert!(matches!(run.workspace_entered(), PublishAction::RequireClean));
    assert!(matches!(
        run.worktree_clean(),
        PublishAction::ReadTarget { name } if name == "refs/heads/feature"
    ));
    run
}

#[test]
fn a_draft_is_published_at_its_verified_commit() {
    let mut run = in_order();
    assert!(matches!(run.target_read(None), PublishAction::ReadMapping));
    assert!(matches!(
        run.mapping_read(Some(mapped(Some("refs/atomic/views/old")))),
        PublishAction::ReadSource { name } if name == "refs/atomic/views/old"
    ));
    assert!(matches!(run.source_read(Some("c1")), PublishAction::ReadCheckpoint));
    assert!(matches!(
        run.checkpoint_read(checkpoint("topic", "c1"), 7),
        PublishAction::CreateBranch { name, commit }
            if name == "refs/heads/feature" && commit == "c1"
    ));
    let saved = run.mapping.as_ref().unwrap();
    assert_eq!(saved.local_ref.as_deref(), Some("refs/heads/feature"));
    assert_eq!(saved.last_exported.as_deref(), Some("c1"));
    assert_eq!(saved.last_exported_state.as_deref(), Some("S1"));
    assert_eq!(saved.last_observed_remote.as_deref(), Some("r0"));
    assert_eq!(saved.remote.as_ref().unwrap().remote, "origin");
    assert_eq!(saved.status, RefSyncStatus::Synchronized);
    assert_eq!(saved.scope, ViewScope::Draft);
    match run.branch_created() {
        PublishAction::Finish { notice } => assert_eq!(
            notice,
            "Published draft view 'topic' on branch 'feature' at c1; the view remains a Draft \
             in Atomic"
        ),
        other => panic!("not finished: {other:?}"),
    }
    assert_eq!(run.stage, PublishStage::Done);
    assert!(matches!(run.branch_created(), PublishAction::OutOfTurn));
}

#[test]
fn a_view_without_a_mapping_gets_one_first() {
    let mut run = in_order();
    run.target_read(None);
    assert!(matches!(
        run.mapping_read(None),
        PublishAction::ReadTip { name: Some(name) } if name == "refs/atomic/views/topic"
    ));
    assert!(matches!(run.tip_read(Some("c0"), 9), PublishAction::SaveBaseline));
    let first = run.baseline.as_ref().unwrap();
    assert_eq!(first.view_id, 9);
    assert_eq!(first.last_observed_local.as_deref(), Some("c0"));
    assert_eq!(first.last_exported_state, None);
    assert!(matches!(
        run.baseline_saved(),
        PublishAction::ReadSource { name } if name == "refs/atomic/views/topic"
    ));

    // An ephemeral view has no ref of its own.
    let (mut run, _) = PublishRun::begin("git/abc".to_string(), "b".to_string());
    run.scope_read(ViewScope::Draft, "S".to_string(), true);
    run.workspace_entered();
    run.worktree_clean();
    run.target_read(None);
    assert!(matches!(run.mapping_read(None), PublishAction::ReadTip { name: None }));
    run.tip_read(None, 1);
    assert!(matches!(
        run.baseline_saved(),
        PublishAction::ReadSource { name } if name == "refs/atomic/views/git/abc"
    ));
}

#[test]
fn only_drafts_are_published() {
    let (mut run, _) = PublishRun::begin("main".to_string(), "b".to_string());
    assert_eq!(
        message(run.scope_read(ViewScope::Shared, "S".to_string(), false)),
        "view 'main' is shared and already maps to a Git ref; publish applies to Draft views"
    );
    assert_eq!(run.stage, PublishStage::Failed);
    assert!(matches!(run.workspace_entered(), PublishAction::OutOfTurn));
}

#[test]
fn an_occupied_branch_is_never_moved() {
    let mut run = in_order();
    assert_eq!(
        message(run.target_read(Some(Some("c9")))),
        "refusing to publish view 'topic': target branch 'refs/heads/feature' already exists at \
         c9; publication is create-only — delete or rename the branch first"
    );
    let mut run = in_order();
    assert!(message(run.target_read(Some(None))).contains("already exists at <symbolic>"));
    assert!(run.baseline.is_none());
}

#[test]
fn a_refused_workspace_ends_the_publication() {
    let (mut run, _) = PublishRun::begin("topic".to_string(), "b".to_string());
    run.scope_read(ViewScope::Draft, "S".to_string(), false);
    let refusal = CliError::GitError { message: "a rebase is under way".to_string() };
    assert_eq!(message(run.failed(refusal)), "a rebase is under way");
    assert!(!run.entered && run.baseline.is_none() && run.mapping.is_none());
    assert!(matches!(run.worktree_clean(), PublishAction::OutOfTurn));
    let late = CliError::GitError { message: String::new() };
    assert!(matches!(run.failed(late), PublishAction::OutOfTurn));
}

#[test]
fn an_unverified_commit_is_not_published() {
    let at_source = || {
        let mut run = in_order();
        run.target_read(None);
        run.mapping_read(Some(mapped(None)));
        run
    };
    let mut run = at_source();
    assert_eq!(
        message(run.source_read(None)),
        "view 'topic' has no projection commit to publish; run 'atomic git bridge reconcile' or \
         record first"
    );
    for (found, said) in [
        (None, "there is no verified bridge checkpoint"),
        (checkpoint("main", "c1"), "the verified bridge checkpoint names view 'main'"),
        (
            checkpoint("topic", "c0"),
            "the candidate publication commit c1 is not the verified projection commit c0",
        ),
    ] {
        let mut run = at_source();
        run.source_read(Some("c1"));
        assert!(message(run.checkpoint_read(found, 7)).contains(said));
        assert!(run.mapping.is_none());
        assert!(matches!(run.branch_created(), PublishAction::OutOfTurn));
    }
}
