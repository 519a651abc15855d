use atomic_git::commit::{FileOperation, ParsedFile};
use atomic_git::error::CliError;
use atomic_git::graph::Encoding;
use atomic_git::message::Merkle;
use atomic_git::projection_run::{ProjectionAction, ProjectionRun, ProjectionStage};
use atomic_git::push::{
    GitHashAlgorithm, HistoryEntry, ProjectionAuthor, Push, PushedCommit,
};
use atomic_git::push_run::{PushAction, PushRun, PushStage};
use atomic_git::paths::{extract_directory, extract_parent};
use atomic_git::recording::{KeptKind, RecordAction, Recording, Waiting};
use atomic_git::ref_mapping::{baseline_mapping, ViewScope};
use atomic_git::shadow::{
    ConflictMarker, FailureRecovery, HeadPolicy, PublicationEvidence, RefTarget,
};
use atomic_git::synthesis::{EffectiveOp, FilePlan, InodeAttr, MoveBasis};

fn git_message(error: CliError) -> String {
    match error {
        CliError::GitError { message } => message,
        other => panic!("expected a Git error, got {:?}", other),
    }
}

fn evidence(head: Option<&str>) -> PublicationEvidence {
    PublicationEvidence {
        view: "dev".to_string(),
        policy_root: "P".to_string(),
        atomic_state: "STATE".to_string(),
        manifest_root: "M".to_string(),
        index_root: "I".to_string(),
        worktree_root: "W".to_string(),
        git_tree: "T".to_string(),
        algorithm: GitHashAlgorithm::Sha1,
        git_head: head.map(|h| h.to_string()),
    }
}

fn moved() -> PublicationEvidence {
    let mut e = evidence(Some("C0"));
    e.index_root = "I2".to_string();
    e
}

fn entry(hash: &str, state: u128) -> HistoryEntry {
    HistoryEntry {
        hash: hash.to_string(),
        state: Merkle { hi: state, lo: 0 },
        message: Some("First".to_string()),
    }
}

fn author() -> ProjectionAuthor {
    ProjectionAuthor {
        name: "Ann".to_string(),
        email: "ann@example.com".to_string(),
        did: "did:ann".to_string(),
        agent_did: None,
    }
}

fn pushed_failure(action: PushAction) -> String {
    match action {
        PushAction::Fail { error } => git_message(error),
        other => panic!("expected a failure, got {:?}", other),
    }
}

/// A push up to the lock.
fn locked(push: Push) -> PushRun {
    let (mut run, first) = PushRun::begin(push, evidence(Some("C0")));
    assert!(matches!(first, PushAction::EnforceProvenance));
    assert!(matches!(run.provenance_trusted(), PushAction::CaptureConflicts));
    assert!(matches!(run.conflicts_captured(false), PushAction::EnterWorkspace));
    assert!(matches!(run.workspace_entered("dev".to_string()), PushAction::TakeLock));
    run
}

/// A push up to its histories.
fn scoped(push: Push, scope: ViewScope) -> PushRun {
    let mut run = locked(push);
    assert!(matches!(run.lock_taken(true), PushAction::Reobserve));
    assert!(matches!(run.leases_observed(&evidence(None)), PushAction::ReadScope));
    assert!(matches!(run.scope_read(scope), PushAction::ReadHistory { .. }));
    run
}

/// A push up to the comparison of the trees.
fn staged(push: Push) -> PushRun {
    let mut run = scoped(push, ViewScope::Shared);
    let history = vec![entry("H1", 1), entry("H2", 2)];
    let line = vec![PushedCommit {
        message: "x\n\nAtomic-View: dev\nAtomic-State: S1\n".to_string(),
        decoded: Some(Merkle { hi: 1, lo: 0 }),
    }];
    assert!(matches!(
        run.history_read(history, &line, "STATE".to_string(), true),
        PushAction::StageTree
    ));
    // Only what is new since the last push is published.
    assert_eq!(run.entries.len(), 1);
    assert_eq!(run.entries[0].hash, "H2");
    assert!(matches!(
        run.tree_staged(None, None, &vec!["a.txt".to_string()]),
        PushAction::CompareTrees
    ));
    run
}

fn resolved(run: &mut PushRun) -> PushAction {
    let (manifest, policy) = ("MANIFEST".to_string(), "POLICY".to_string());
    run.identity_resolved(manifest, policy, GitHashAlgorithm::Sha1, "SET", &author())
}

/// A push up to its commit.
fn described(push: Push) -> PushRun {
    let mut run = staged(push);
    assert!(matches!(run.trees_compared(false, 0, "main"), PushAction::ResolveIdentity));
    assert!(matches!(
        resolved(&mut run),
        PushAction::Recheck
    ));
    run
}

/// A push up to its lease.
fn observed(push: Push) -> PushRun {
    let mut run = described(push);
    assert!(matches!(
        run.leases_rechecked(&evidence(None), Some("C0")),
        PushAction::Commit { message } if message.starts_with("First\n") && message.contains("Atomic-Changes: H2")
    ));
    assert!(matches!(
        run.committed("C1", "T", Some("C1")),
        PushAction::ReadBranch { notice } if notice == "Created git commit C1 on view 'dev' (1 new change)"
    ));
    assert_eq!(
        run.retry_notice(),
        Some("Commit created locally. Run 'git push' manually to retry.")
    );
    assert!(matches!(
        run.branch_read("main".to_string()),
        PushAction::CheckDestination { destination } if destination == "refs/heads/main"
    ));
    assert!(matches!(run.destination_checked(true), PushAction::ObserveHead));
    assert!(matches!(
        run.head_observed(&evidence(None), "C1", "T"),
        PushAction::ReadMapping
    ));
    run
}

#[test]
fn a_push_passes_its_gates_in_order() {
    let mut run = observed(Push::default());
    assert!(matches!(
        run.mapping_read(None),
        PushAction::ObserveRemote { destination } if destination == "refs/heads/main"
    ));
    match run.remote_observed(None) {
        PushAction::RunGit { arguments } => assert_eq!(
            arguments,
            vec!["push", "origin", "--force-with-lease=refs/heads/main:", "C1:refs/heads/main"]
        ),
        other => panic!("unexpected {:?}", other),
    }
    assert!(matches!(
        run.git_pushed(true, "exit status: 0"),
        PushAction::ConfirmRemote { destination } if destination == "refs/heads/main"
    ));
    assert!(matches!(
        run.remote_confirmed(Some("C1"), "C1"),
        PushAction::RecordTip { tip } if tip == "C1"
    ));
    match run.recorded() {
        PushAction::Finish { notice } => {
            assert!(notice.unwrap().starts_with("Pushed to origin/main"))
        }
        other => panic!("unexpected {:?}", other),
    }
    assert_eq!(run.stage, PushStage::Done);
    assert!(matches!(run.recorded(), PushAction::OutOfTurn));
}

#[test]
fn a_push_answers_nothing_out_of_turn() {
    let (mut run, _) = PushRun::begin(Push::default(), evidence(Some("C0")));
    assert!(matches!(run.lock_taken(true), PushAction::OutOfTurn));
    assert!(matches!(run.destination_checked(true), PushAction::OutOfTurn));
    assert!(matches!(run.remote_observed(None), PushAction::OutOfTurn));
    assert!(matches!(run.git_pushed(true, ""), PushAction::OutOfTurn));
    assert_eq!(run.stage, PushStage::Provenance);
    let failed = run.failed(CliError::GitError { message: "no".to_string() });
    assert_eq!(pushed_failure(failed), "no");
    assert_eq!(run.retry_notice(), None);
    let again = run.failed(CliError::GitError { message: "no".to_string() });
    assert!(matches!(again, PushAction::OutOfTurn));
}

#[test]
fn conflicts_stop_a_push_without_a_current_pack() {
    let (mut run, _) = PushRun::begin(Push::default(), evidence(Some("C0")));
    run.provenance_trusted();
    assert!(matches!(
        run.conflicts_captured(true),
        PushAction::Fail { error: CliError::InvalidOperation { .. } }
    ));
    for current in [true, false] {
        let push = Push { allow_conflicts: true, ..Push::default() };
        let (mut run, _) = PushRun::begin(push, evidence(Some("C0")));
        run.provenance_trusted();
        assert!(matches!(run.conflicts_captured(true), PushAction::FindPack));
        let next = run.pack_checked(current, "HASH");
        if current {
            assert!(matches!(next, PushAction::EnterWorkspace));
        } else {
            assert!(matches!(
                next,
                PushAction::Fail { error: CliError::InvalidOperation { .. } }
            ));
        }
    }
}

#[test]
fn a_shadow_that_is_taken_ends_the_push() {
    let mut run = locked(Push::default());
    assert!(matches!(run.lock_taken(false), PushAction::Finish { notice: None }));
}

#[test]
fn a_moved_lease_stops_the_push_wherever_it_is_observed() {
    let stale =
        "publication state changed after equivalence verification; retry from fresh observations";
    let mut run = locked(Push::default());
    run.lock_taken(true);
    assert_eq!(pushed_failure(run.leases_observed(&moved())), stale);

    let mut run = described(Push::default());
    assert_eq!(pushed_failure(run.leases_rechecked(&moved(), Some("C0"))), stale);

    let mut run = described(Push::default());
    assert_eq!(
        pushed_failure(run.leases_rechecked(&evidence(None), None)),
        "Git HEAD lease changed before commit: expected Some(C0), found None"
    );

    let mut run = described(Push::default());
    run.leases_rechecked(&evidence(None), Some("C0"));
    assert_eq!(
        pushed_failure(run.committed("C1", "T", Some("C9"))),
        "Git HEAD changed while binding publication: expected C1, found C9"
    );
    assert_eq!(run.retry_notice(), None);
}

#[test]
fn a_commit_with_another_tree_is_not_bound() {
    let mut run = described(Push::default());
    run.leases_rechecked(&evidence(None), Some("C0"));
    assert_eq!(
        pushed_failure(run.committed("C1", "T2", Some("C1"))),
        "refusing to bind a Git commit whose tree differs from the verified project tree"
    );
}

#[test]
fn a_push_without_push_never_reaches_the_remote() {
    let mut run = described(Push { no_push: true, ..Push::default() });
    run.leases_rechecked(&evidence(None), Some("C0"));
    assert!(matches!(
        run.committed("C1", "T", Some("C1")),
        PushAction::Finish { notice: Some(_) }
    ));
    assert!(matches!(run.branch_read("main".to_string()), PushAction::OutOfTurn));

    let mut run = staged(Push { no_push: true, ..Push::default() });
    assert!(matches!(
        run.trees_compared(true, 3, "main"),
        PushAction::Finish { notice: Some(_) }
    ));
}

#[test]
fn an_unchanged_tree_pushes_what_is_there() {
    let mut run = staged(Push::default());
    assert!(matches!(run.trees_compared(true, 3, "main"), PushAction::ReadBranch { .. }));
    assert_eq!(run.retry_notice(), None);
    run.branch_read("main".to_string());
    run.destination_checked(true);
    // The verified commit itself is pushed.
    assert_eq!(run.refspec, "C0:refs/heads/main");

    let mut run = staged(Push::default());
    assert!(matches!(
        run.trees_compared(true, 0, "main"),
        PushAction::Finish { notice: Some(_) }
    ));
}

#[test]
fn a_draft_is_redirected_to_its_own_branch() {
    let run = scoped(Push::default(), ViewScope::Draft);
    assert_eq!(run.target.as_deref(), Some("dev"));
    let run = scoped(Push::default(), ViewScope::Shared);
    assert_eq!(run.target, None);
}

#[test]
fn a_history_that_drifted_is_not_pushed() {
    let mut run = scoped(Push::default(), ViewScope::Shared);
    assert!(matches!(
        run.history_read(vec![], &vec![], String::new(), true),
        PushAction::Finish { notice: Some(n) }
            if n == "No changes recorded in the current view. Nothing to push."
    ));
    let mut run = scoped(Push::default(), ViewScope::Shared);
    let line = vec![PushedCommit {
        message: "x\n\nAtomic-View: dev\nAtomic-State: S9\n".to_string(),
        decoded: Some(Merkle { hi: 9, lo: 0 }),
    }];
    assert!(matches!(
        run.history_read(vec![entry("H1", 1)], &line, "STATE".to_string(), true),
        PushAction::Fail { error: CliError::GitError { .. } }
    ));
}

#[test]
fn markers_and_forbidden_paths_stop_a_push() {
    for (allow, marked, path, stops) in [
        (false, true, "a", true),
        (true, true, "a", false),
        (true, false, ".atomic/x", true),
        (false, false, "a", false),
    ] {
        let push = Push { allow_conflict_markers: allow, ..Push::default() };
        let mut run = scoped(push, ViewScope::Shared);
        run.history_read(vec![entry("H1", 1)], &vec![], "STATE".to_string(), true);
        let marker = ConflictMarker { path: "a".to_string(), line: 3 };
        let next = run.tree_staged(
            if marked { Some(&marker) } else { None },
            None,
            &vec![path.to_string()],
        );
        assert_eq!(matches!(next, PushAction::Fail { .. }), stops, "{} {} {}", allow, marked, path);
    }
}

#[test]
fn a_message_is_only_for_the_verified_state() {
    for (state, decodes, said) in [
        ("OTHER", true, "Atomic view/state changed after publication verification"),
        ("STATE", false, "verified view state is not a valid Merkle value"),
    ] {
        let mut run = scoped(Push::default(), ViewScope::Shared);
        run.history_read(vec![entry("H1", 1)], &vec![], state.to_string(), decodes);
        run.tree_staged(None, None, &vec![]);
        run.trees_compared(false, 0, "main");
        assert_eq!(pushed_failure(resolved(&mut run)), said);
    }
    // It names the view, the state and the tree that were verified.
    let run = described(Push::default());
    assert!(run.message.contains("Atomic-View: dev\nAtomic-State: STATE\n"));
    assert!(run.message.contains("Atomic-Manifest: MANIFEST\nAtomic-Policy: POLICY\n"));
    assert!(run.message.contains("Atomic-Algorithm: sha1\nAtomic-Tree: T\n"));
}

#[test]
fn a_recovery_ref_is_never_pushed() {
    let mut run = staged(Push::default());
    run.trees_compared(true, 3, "main");
    run.branch_read("main".to_string());
    assert_eq!(
        pushed_failure(run.destination_checked(false)),
        "refusing to publish local recovery ref 'refs/heads/main'"
    );
}

#[test]
fn the_remote_has_to_hold_what_was_pushed() {
    let mut run = observed(Push::default());
    let mut mapping = baseline_mapping(7, "dev", ViewScope::Shared, false, Some("T"), "STATE");
    mapping.last_observed_remote = Some("OLD".to_string());
    match run.mapping_read(Some(&mapping)) {
        PushAction::RunGit { arguments } => assert_eq!(
            arguments,
            vec!["push", "origin", "--force-with-lease=refs/heads/main:OLD", "C1:refs/heads/main"]
        ),
        other => panic!("unexpected {:?}", other),
    }
    run.git_pushed(true, "");
    assert_eq!(
        pushed_failure(run.remote_confirmed(Some("C7"), "C7")),
        "remote 'origin/refs/heads/main' holds C7 but the pushed commit is C1; \
         the remote update is NOT recorded as observed"
    );

    // A remote that holds a tip already is pushed to without a lease.
    let mut run = observed(Push::default());
    run.mapping_read(None);
    match run.remote_observed(Some("T9")) {
        PushAction::RunGit { arguments } => {
            assert_eq!(arguments, vec!["push", "origin", "C1:refs/heads/main"])
        }
        other => panic!("unexpected {:?}", other),
    }
    assert_eq!(
        pushed_failure(run.git_pushed(false, "exit status: 1")),
        "git push exited with exit status: 1"
    );
}

fn draft() -> HeadPolicy {
    HeadPolicy::Draft { view_ref: "refs/atomic/views/dev".to_string() }
}

fn ephemeral() -> HeadPolicy {
    HeadPolicy::Ephemeral { original: "C0".to_string() }
}

fn projection_failure(action: ProjectionAction) -> String {
    match action {
        ProjectionAction::Fail { error } => git_message(error),
        other => panic!("expected a failure, got {:?}", other),
    }
}

/// A projection of a clean state up to its verified tree.
fn verified(policy: HeadPolicy) -> (ProjectionRun, ProjectionAction) {
    let (mut run, first) = ProjectionRun::begin("dev".to_string(), policy);
    assert!(matches!(first, ProjectionAction::CaptureConflicts));
    assert!(matches!(
        run.conflicts_captured(None, ViewScope::Draft, false),
        ProjectionAction::FindMarkers
    ));
    assert!(matches!(
        run.markers_found(None, None),
        ProjectionAction::VerifyTree { snapshot: false }
    ));
    let next = run.tree_verified(evidence(Some("C0")));
    (run, next)
}

/// A projection up to its parent.
fn leased(policy: HeadPolicy) -> ProjectionRun {
    let (mut run, next) = verified(policy);
    assert!(matches!(next, ProjectionAction::JournalObjects));
    assert!(matches!(run.objects_journaled(), ProjectionAction::StageTree));
    assert!(matches!(
        run.tree_staged(None, None, &vec!["a".to_string()]),
        ProjectionAction::Reobserve
    ));
    assert!(matches!(
        run.leases_observed(&evidence(None)),
        ProjectionAction::ReadParent { target } if target == "refs/atomic/views/dev"
    ));
    run
}

#[test]
fn a_projection_is_published_as_a_whole() {
    let mut run = leased(draft());
    assert!(matches!(
        run.parent_read(None, Err("none"), Ok("C0")),
        ProjectionAction::BuildCommit { parent } if parent == "C0"
    ));
    match run.commit_built("C1") {
        ProjectionAction::Journal { plan } => {
            assert_eq!(plan.ref_name, "refs/atomic/views/dev");
            assert!(matches!(&plan.intended_ref, Some(RefTarget::Direct(c)) if c == "C1"));
            assert!(matches!(&plan.intended_head, Some(RefTarget::Direct(c)) if c == "C1"));
            assert_eq!(plan.index_tree.as_deref(), Some("T"));
            assert_eq!(plan.checkpoint_head.as_deref(), Some("C1"));
            assert!(plan.create_commit);
        }
        other => panic!("unexpected {:?}", other),
    }
    assert_eq!(run.recovery(), FailureRecovery::RestoreSnapshot);
    assert!(matches!(
        run.effects_journaled(&vec![], ""),
        ProjectionAction::Finish { warning: None }
    ));
    assert_eq!(run.recovery(), FailureRecovery::LeaveToJournal);
    assert_eq!(run.stage, ProjectionStage::Done);
    assert!(matches!(run.commit_built("C1"), ProjectionAction::OutOfTurn));
}

#[test]
fn a_tree_that_is_projected_already_needs_no_commit() {
    let mut run = leased(draft());
    match run.parent_read(Some(("C5", "T")), Err("none"), Ok("C0")) {
        ProjectionAction::Journal { plan } => {
            assert!(matches!(&plan.intended_ref, Some(RefTarget::Direct(c)) if c == "C5"));
            assert!(!plan.create_commit);
        }
        other => panic!("unexpected {:?}", other),
    }
    let mut run = leased(draft());
    assert!(matches!(
        run.parent_read(Some(("C5", "T5")), Err("none"), Ok("C0")),
        ProjectionAction::BuildCommit { parent } if parent == "C5"
    ));
    let mut run = leased(draft());
    assert!(matches!(
        run.parent_read(None, Ok("A"), Ok("C0")),
        ProjectionAction::BuildCommit { parent } if parent == "C0"
    ));
    let mut run = leased(draft());
    assert_eq!(
        projection_failure(run.parent_read(None, Err("none"), Err("unborn"))),
        "cannot create shadow projection for 'dev' without a current Git HEAD commit: unborn"
    );
}

#[test]
fn an_ephemeral_view_keeps_its_adopted_commit() {
    let (mut run, next) = verified(ephemeral());
    assert!(matches!(next, ProjectionAction::ReadAdopted { original } if original == "C0"));
    assert!(matches!(run.adopted_read("C0", "T"), ProjectionAction::Reobserve));
    match run.leases_observed(&evidence(None)) {
        ProjectionAction::Journal { plan } => {
            assert!(plan.intended_ref.is_none());
            assert!(matches!(&plan.intended_head, Some(RefTarget::Direct(c)) if c == "C0"));
            assert!(!plan.create_commit);
        }
        other => panic!("unexpected {:?}", other),
    }
    assert!(matches!(
        run.effects_journaled(&vec![], ""),
        ProjectionAction::Finish { warning: None }
    ));
    // With another tree it is projected like any view, on that commit.
    let built = |adopted: Result<&str, &str>| {
        let (mut run, _) = verified(ephemeral());
        assert!(matches!(run.adopted_read("C0", "T2"), ProjectionAction::JournalObjects));
        run.objects_journaled();
        run.tree_staged(None, None, &vec![]);
        run.leases_observed(&evidence(None));
        run.parent_read(None, adopted, Ok("H"))
    };
    assert!(matches!(
        built(Ok("C0")),
        ProjectionAction::BuildCommit { parent } if parent == "C0"
    ));
    assert_eq!(
        projection_failure(built(Err("gone"))),
        "ephemeral default parent C0 is unreadable: gone"
    );
}

#[test]
fn conflicts_are_projected_as_a_snapshot() {
    let (mut run, _) = ProjectionRun::begin("dev".to_string(), draft());
    assert!(matches!(
        run.conflicts_captured(Some(2), ViewScope::Draft, false),
        ProjectionAction::PrepareSnapshot
    ));
    assert!(matches!(
        run.snapshot_prepared(true),
        ProjectionAction::VerifyTree { snapshot: true }
    ));
    assert!(matches!(
        run.tree_verified(evidence(Some("C0"))),
        ProjectionAction::JournalObjects
    ));
    run.objects_journaled();
    // A snapshot may hold markers.
    let marker = ConflictMarker { path: "a".to_string(), line: 1 };
    assert!(matches!(
        run.tree_staged(Some(&marker), None, &vec!["a".to_string()]),
        ProjectionAction::Reobserve
    ));
    run.leases_observed(&evidence(None));
    run.parent_read(None, Err("none"), Ok("C0"));
    run.commit_built("C1");
    match run.effects_journaled(&vec!["a".to_string(), "b".to_string()], "SET") {
        ProjectionAction::Finish { warning: Some(w) } => assert_eq!(
            w,
            "committed Atomic conflict snapshot on 'dev': 2 conflicted path(s) (a, b), conflict \
             set SET — the conflict remains unresolved in Atomic; resolve it (or use an Atomic \
             remote/binding pack to restore it)"
        ),
        other => panic!("unexpected {:?}", other),
    }

    let (mut run, _) = ProjectionRun::begin("dev".to_string(), draft());
    assert!(matches!(
        run.conflicts_captured(Some(2), ViewScope::Shared, false),
        ProjectionAction::Fail { error: CliError::InvalidOperation { .. } }
    ));
    let (mut run, _) = ProjectionRun::begin("dev".to_string(), draft());
    run.conflicts_captured(Some(2), ViewScope::Shared, true);
    assert_eq!(
        projection_failure(run.snapshot_prepared(false)),
        "conflict snapshot preparation disagreed with the captured conflict state"
    );
}

#[test]
fn nothing_unverified_becomes_visible() {
    // A view other than the verified one.
    let (mut run, _) = ProjectionRun::begin("main".to_string(), draft());
    run.conflicts_captured(None, ViewScope::Draft, false);
    run.markers_found(None, None);
    run.tree_verified(evidence(Some("C0")));
    run.objects_journaled();
    run.tree_staged(None, None, &vec![]);
    run.leases_observed(&evidence(None));
    assert_eq!(
        projection_failure(run.parent_read(None, Err("none"), Ok("C0"))),
        "shadow projection does not match verified publication"
    );
    assert_eq!(run.recovery(), FailureRecovery::RestoreSnapshot);
    // A lease that moved.
    let (mut run, _) = verified(draft());
    run.objects_journaled();
    run.tree_staged(None, None, &vec![]);
    assert_eq!(
        projection_failure(run.leases_observed(&moved())),
        "publication state changed after equivalence verification; retry from fresh observations"
    );
    // Markers in a clean state.
    let (mut run, _) = ProjectionRun::begin("dev".to_string(), draft());
    run.conflicts_captured(None, ViewScope::Draft, false);
    let marker = ConflictMarker { path: "a".to_string(), line: 1 };
    assert!(matches!(
        run.markers_found(None, Some(&marker)),
        ProjectionAction::Fail { .. }
    ));
    // Nothing is journaled out of turn.
    let (mut run, _) = ProjectionRun::begin("dev".to_string(), draft());
    assert!(matches!(run.commit_built("C1"), ProjectionAction::OutOfTurn));
    assert!(matches!(run.effects_journaled(&vec![], ""), ProjectionAction::OutOfTurn));
    let failed = run.failed(CliError::GitError { message: "no".to_string() });
    assert_eq!(projection_failure(failed), "no");
}

fn file(path: &str, operation: FileOperation, content: Option<&[u8]>) -> ParsedFile {
    ParsedFile {
        path: path.to_string(),
        operation,
        new_content: content.map(|c| c.to_vec()),
        old_content: None,
        diff_lines: None,
        old_path: None,
        new_mode: Some(0o100644),
        new_encoding: Encoding::Utf8,
        old_encoding: None,
    }
}

fn plan(op: EffectiveOp, baseline: &[u8], attrs: Vec<InodeAttr>) -> FilePlan {
    FilePlan { op, baseline: baseline.to_vec(), attrs }
}

fn record_failure(action: RecordAction) -> String {
    match action {
        RecordAction::Fail { error: CliError::Internal { message } } => message,
        RecordAction::Fail { error } => git_message(error),
        other => panic!("expected a failure, got {:?}", other),
    }
}

#[test]
fn every_file_of_a_commit_is_recorded() {
    let files = vec![
        file("skipped", FileOperation::Modified, Some(b"s")),
        file("new", FileOperation::Added, Some(b"n\n")),
        file("gone", FileOperation::Deleted, None),
        file("dir/full", FileOperation::Modified, Some(b"f\n")),
        file("dir/part", FileOperation::Modified, Some(b"p\n")),
    ];
    let plans = vec![
        plan(EffectiveOp::Skip, b"", vec![]),
        plan(EffectiveOp::Added, b"", vec![InodeAttr::Mode(0o100644)]),
        plan(EffectiveOp::Deleted, b"", vec![]),
        plan(EffectiveOp::ModifiedFullReplace, b"f\n", vec![InodeAttr::Mode(0o100755)]),
        plan(EffectiveOp::Modified, b"old\n", vec![]),
    ];
    let (mut run, first) = Recording::begin(&files, &plans, "SHA".to_string(), false);
    assert!(matches!(
        first,
        RecordAction::Add { path, content } if path == "new" && content == b"n\n"
    ));
    assert_eq!(run.deleted, vec!["gone"]);
    assert!(matches!(run.inspected(true, false, &None), RecordAction::OutOfTurn));
    assert!(matches!(run.recorded(false), RecordAction::Delete { path } if path == "gone"));
    assert!(matches!(
        run.recorded(false),
        RecordAction::Replace { path, content } if path == "dir/full" && content == b"f\n"
    ));
    // The same bytes leave the attribute writes alone.
    assert!(matches!(
        run.recorded(true),
        RecordAction::Inspect { path } if path == "dir/part"
    ));
    match run.inspected(true, true, &Some(b"held\n".to_vec())) {
        RecordAction::Modify { path, before, after, known, forced } => {
            assert_eq!(path, "dir/part");
            assert_eq!(before, b"held\n");
            assert_eq!(after, b"p\n");
            assert!(known);
            assert!(forced);
        }
        other => panic!("unexpected {:?}", other),
    }
    assert!(matches!(run.recorded(false), RecordAction::Finish));
    assert_eq!(run.next, files.len());
    let kept: Vec<(usize, &str, KeptKind, usize)> =
        run.records.iter().map(|k| (k.file, k.path.as_str(), k.kind, k.attrs.len())).collect();
    assert_eq!(
        kept,
        vec![
            (1, "new", KeptKind::Content, 1),
            (2, "gone", KeptKind::Deletion, 0),
            (3, "dir/full", KeptKind::Attributes, 1),
            (4, "dir/part", KeptKind::Content, 0),
        ]
    );
    assert!(matches!(run.recorded(false), RecordAction::OutOfTurn));
}

#[test]
fn a_record_must_not_be_empty() {
    let files = vec![file("a", FileOperation::Added, Some(b"n\n"))];
    let plans = vec![plan(EffectiveOp::Added, b"", vec![])];
    let (mut run, _) = Recording::begin(&files, &plans, "SHA".to_string(), false);
    assert_eq!(
        record_failure(run.recorded(true)),
        "cannot record added path 'a': record is empty"
    );
    assert_eq!(run.waiting, Waiting::Nothing);

    let files = vec![file("a", FileOperation::Modified, Some(b"n\n"))];
    let plans = vec![plan(EffectiveOp::ModifiedFullReplace, b"o\n", vec![])];
    let (mut run, _) = Recording::begin(&files, &plans, "SHA".to_string(), false);
    assert_eq!(
        record_failure(run.recorded(true)),
        "cannot record modified path 'a': record is empty"
    );
    // Equal bytes bring nothing, and need no record.
    let plans = vec![plan(EffectiveOp::ModifiedFullReplace, b"n\n", vec![])];
    let (mut run, _) = Recording::begin(&files, &plans, "SHA".to_string(), false);
    assert!(matches!(run.recorded(true), RecordAction::Finish));
    assert!(run.records.is_empty());
    assert_eq!(run.unchanged.len(), 1);
    assert_eq!((run.unchanged[0].file, run.unchanged[0].baseline.as_slice()), (0, &b"n\n"[..]));

    let files = vec![file("a", FileOperation::Modified, None)];
    let (_, first) = Recording::begin(&files, &plans, "SHA".to_string(), false);
    assert_eq!(record_failure(first), "commit SHA omitted bytes for modified path 'a'");
}

fn renamed() -> ParsedFile {
    let mut f = file("dir/b", FileOperation::Renamed, Some(b"x\ny\n"));
    f.old_path = Some("a".to_string());
    f.old_content = Some(b"x\ny\n".to_vec());
    f
}

#[test]
fn a_known_rename_is_a_move() {
    let files = vec![renamed()];
    let plans = vec![plan(EffectiveOp::Renamed, b"x\ny\n", vec![InodeAttr::Mode(0o100644)])];
    let (mut run, first) = Recording::begin(&files, &plans, "SHA".to_string(), true);
    assert!(matches!(
        first,
        RecordAction::Locate { parent, old_path, path }
            if parent == "dir" && old_path == "a" && path == "dir/b"
    ));
    match run.located(true, true, &None) {
        RecordAction::Move { old_path, path, before, after } => {
            assert_eq!(old_path, "a");
            assert_eq!(path, "dir/b");
            assert_eq!(before, b"x\ny\n");
            assert_eq!(after, b"x\ny\n");
        }
        other => panic!("unexpected {:?}", other),
    }
    assert_eq!(run.moves.len(), 1);
    assert_eq!(run.moves[0].basis, MoveBasis::ByteIdentity);
    assert!(matches!(run.recorded(true), RecordAction::Finish));
    assert_eq!(run.records[0].kind, KeptKind::Content);
    assert_eq!(run.records[0].attrs.len(), 1);
}

#[test]
fn an_unknown_rename_is_a_deletion_and_an_addition() {
    let files = vec![renamed()];
    let plans = vec![plan(EffectiveOp::Renamed, b"x\ny\n", vec![])];
    for (parent_known, old_known) in [(false, true), (true, false)] {
        let (mut run, _) = Recording::begin(&files, &plans, "SHA".to_string(), false);
        assert!(matches!(
            run.located(parent_known, old_known, &None),
            RecordAction::Delete { path } if path == "a"
        ));
        assert_eq!(run.deleted.last().map(|p| p.as_str()), Some("a"));
        assert_eq!(run.losses.len(), 1);
        assert!(matches!(
            run.recorded(false),
            RecordAction::Add { path, content } if path == "dir/b" && content == b"x\ny\n"
        ));
        assert!(matches!(run.recorded(false), RecordAction::Finish));
        assert_eq!(run.records.len(), 2);
        assert_eq!(run.records[0].kind, KeptKind::Deletion);
        assert_eq!(run.records[1].kind, KeptKind::Content);
    }
    let (mut run, _) = Recording::begin(&files, &plans, "SHA".to_string(), false);
    run.located(false, false, &None);
    assert_eq!(
        record_failure(run.recorded(true)),
        "cannot import ambiguous rename source 'a': canonical FileDel is empty"
    );
    let (mut run, _) = Recording::begin(&files, &plans, "SHA".to_string(), false);
    run.located(false, false, &None);
    run.recorded(false);
    assert_eq!(
        record_failure(run.recorded(true)),
        "cannot record renamed path 'dir/b': record is empty"
    );
}

#[test]
fn an_excluded_lineage_records_against_the_plan() {
    let files = vec![file("a", FileOperation::Modified, Some(b"n\n"))];
    let plans = vec![plan(EffectiveOp::Modified, b"base\n", vec![])];
    let (mut run, _) = Recording::begin(&files, &plans, "SHA".to_string(), true);
    match run.inspected(true, true, &Some(b"held\n".to_vec())) {
        RecordAction::Modify { before, forced, .. } => {
            assert_eq!(before, b"base\n");
            assert!(!forced);
        }
        other => panic!("unexpected {:?}", other),
    }
}

#[test]
fn a_named_branch_needs_no_ref_of_the_view() {
    // The name of the view goes into no ref here.
    let (mut run, _) = PushRun::begin(
        Push { branch: Some("main".to_string()), ..Push::default() },
        evidence(Some("C0")),
    );
    run.provenance_trusted();
    run.conflicts_captured(false);
    run.workspace_entered("de\0v".to_string());
    run.lock_taken(true);
    run.leases_observed(&evidence(None));
    assert!(matches!(run.scope_read(ViewScope::Draft), PushAction::ReadHistory { .. }));
    assert_eq!(run.target.as_deref(), Some("main"));
}

#[test]
fn a_tree_without_a_sha1_id_is_not_published() {
    let said = "Git publication through libgit2 does not support Sha256 repositories";
    let wide = || {
        let mut e = evidence(Some("C0"));
        e.algorithm = GitHashAlgorithm::Sha256;
        e
    };
    let (mut run, _) = PushRun::begin(Push::default(), wide());
    run.provenance_trusted();
    run.conflicts_captured(false);
    run.workspace_entered("dev".to_string());
    run.lock_taken(true);
    // The algorithm of the tree is leased, too.
    assert!(matches!(run.leases_observed(&wide()), PushAction::ReadScope));
    run.scope_read(ViewScope::Shared);
    run.history_read(vec![entry("H1", 1)], &vec![], "STATE".to_string(), true);
    assert_eq!(pushed_failure(run.tree_staged(None, None, &vec![])), said);

    for policy in [draft(), ephemeral()] {
        let (mut run, _) = ProjectionRun::begin("dev".to_string(), policy);
        run.conflicts_captured(None, ViewScope::Draft, false);
        run.markers_found(None, None);
        let next = match run.tree_verified(wide()) {
            ProjectionAction::ReadAdopted { original } => run.adopted_read(&original, "T"),
            _ => {
                run.objects_journaled();
                run.tree_staged(None, None, &vec![])
            }
        };
        assert_eq!(projection_failure(next), said);
    }
}

#[test]
fn a_directory_is_a_path_without_its_last_component() {
    let parts = ["", "/", ".", "..", "a", "b", "a.", ".x"];
    let mut paths: Vec<String> = vec![String::new()];
    for _ in 0..4 {
        let mut longer = Vec::new();
        for path in &paths {
            for part in parts {
                longer.push(format!("{path}{part}"));
                longer.push(format!("{path}{part}/"));
            }
        }
        longer.sort();
        longer.dedup();
        paths = longer;
        paths.truncate(4_000);
    }
    for path in &paths {
        let known = std::path::Path::new(path).parent().and_then(|p| p.to_str()).unwrap_or("");
        assert_eq!(extract_directory(path), known, "{path}");
    }
    for (path, directory, before) in [
        ("dir/b", "dir", "dir"),
        ("b", "", ""),
        ("a//b", "a", "a/"),
        ("/b", "/", ""),
        ("a/b/", "a", "a/b"),
        ("./b", ".", "."),
        ("a/./b", "a", "a/."),
        ("/", "", ""),
    ] {
        assert_eq!(extract_directory(path), directory);
        assert_eq!(extract_parent(path), before);
    }
}
