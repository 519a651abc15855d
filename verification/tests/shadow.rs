use atomic_git::error::CliError;
use atomic_git::push::GitHashAlgorithm;
use atomic_git::ref_mapping::ViewScope;
use atomic_git::shadow::is_forbidden_shadow_path as forbidden;
use atomic_git::shadow::{
    append_shadow_log, append_shadow_validate_log, confirm_projection, confirm_snapshot,
    ephemeral_prefix, filter_driver_record, first_forbidden_shadow_path, marker_policy,
    object_format, platform_policy, projection_author_name, projection_committer,
    projection_failure, projection_message_for, projection_parent, publish_projection,
    record_projection, recovery_of, relevant_config, require_equivalence, require_publishable,
    require_verified_tree, resolve_conflict_export, resolve_head_policy, restore_index,
    restore_reference, shadow_sync_active, snapshot_reference, stage_and_validate_tree,
    start_projection, start_switch, target_ref, ConflictExport, ConflictMarker,
    ConflictMarkerPolicy, FailureRecovery, HeadPolicy, IndexRestore, Mismatch, ProjectionParent, ProjectionStart,
    PublicationEvidence, RecordProjection, RefTarget, RestoreAction, SwitchStart,
};

#[test]
fn forbids_provenance_and_excluded_paths() {
    assert!(forbidden(".atomicignore"));
    assert!(forbidden(".atomic/pristine.redb"));
    assert!(forbidden(".vault/intents/foo.md"));
}

#[test]
fn allows_ordinary_source_paths() {
    assert!(!forbidden("src/main.rs"));
    assert!(!forbidden("README.md"));
    // A file that merely *contains* the substring is not forbidden.
    assert!(!forbidden("docs/.atomicignore.md"));
    assert!(!forbidden("my.vault/keep.txt"));
}

fn git_message(error: CliError) -> String {
    match error {
        CliError::GitError { message } => message,
        other => panic!("expected a Git error, got {:?}", other),
    }
}

fn marker(path: &str, line: u64) -> ConflictMarker {
    ConflictMarker { path: path.to_string(), line }
}

#[test]
fn a_tree_with_markers_or_private_paths_is_not_committed() {
    let staged = vec!["src/main.rs".to_string()];
    let refuse = marker_policy(false);
    let allow = marker_policy(true);
    let seen = marker("a", 3);
    let mut verified = evidence(None);
    assert_eq!(
        stage_and_validate_tree(&verified, refuse, None, None, &staged).ok().as_deref(),
        Some("T")
    );
    assert!(stage_and_validate_tree(&verified, allow, Some(&seen), None, &staged).is_ok());
    let told = |e: CliError| match e {
        CliError::GitError { message } | CliError::InvalidOperation { message } => message,
        other => panic!("unexpected error {:?}", other),
    };
    assert!(told(stage_and_validate_tree(&verified, refuse, Some(&seen), None, &staged).unwrap_err())
        .starts_with("'a' still contains conflict markers at line 3 — resolve the conflict"));
    assert!(told(
        stage_and_validate_tree(&verified, refuse, None, Some(&marker("b", 9)), &staged).unwrap_err()
    )
    .starts_with("'b' still contains conflict markers at line 9"));
    let private = vec!["a".to_string(), ".vault/x".to_string()];
    assert!(told(stage_and_validate_tree(&verified, allow, None, None, &private).unwrap_err()).starts_with(
        "'.vault/x' is a git-excluded Atomic shadow path (.atomic/, .vault/, .atomicignore)"
    ));
    assert_eq!(first_forbidden_shadow_path(&private).as_deref(), Some(".vault/x"));
    // libgit2 has no id for a SHA-256 tree.
    verified.algorithm = GitHashAlgorithm::Sha256;
    verified.git_head = Some("C".to_string());
    let said = "Git publication through libgit2 does not support Sha256 repositories";
    let staging = stage_and_validate_tree(&verified, refuse, None, None, &staged);
    assert_eq!(told(staging.unwrap_err()), said);
    assert_eq!(told(verified.git_tree_oid().unwrap_err()), said);
    assert_eq!(told(verified.reobserve_for_git_push("C", "T").unwrap_err()), said);
    assert_eq!(told(verified.bind_committed_head("C", "T", Some("C")).unwrap_err()), said);
}

#[test]
fn the_policy_follows_the_configuration() {
    assert_eq!(object_format(None).unwrap(), GitHashAlgorithm::Sha1);
    assert_eq!(object_format(Some("SHA256")).unwrap(), GitHashAlgorithm::Sha256);
    assert_eq!(
        git_message(object_format(Some("md5")).unwrap_err()),
        "unsupported Git object algorithm 'md5'"
    );
    let p = platform_policy(None, None, None, None, true);
    assert!(p.executable_bit && p.symlinks && p.case_sensitive && !p.unicode_normalizing);
    let q = platform_policy(Some(false), Some(false), Some(true), Some(true), true);
    assert!(!q.executable_bit && !q.symlinks && !q.case_sensitive && q.unicode_normalizing);
    assert_eq!(
        relevant_config(GitHashAlgorithm::Sha1, q, 5000, 64),
        "object=Sha1\nfilemode=false\nsymlinks=false\nignorecase=true\nprecomposeunicode=true\ntimeout=5000\nmax-output=64\n"
    );
    assert_eq!(
        filter_driver_record("lfs", Some("clean"), None, true),
        "lfs\0clean\0\0true"
    );
    assert!(require_publishable(GitHashAlgorithm::Sha1).is_ok());
    assert_eq!(
        git_message(require_publishable(GitHashAlgorithm::Sha256).unwrap_err()),
        "libgit2 cannot safely publish Sha256 Atomic projections"
    );
    assert!(require_verified_tree("T", "T").is_ok());
    assert_eq!(
        git_message(require_verified_tree("T", "U").unwrap_err()),
        "refusing to align index to an unverified tree"
    );
}

#[test]
fn a_refused_publication_names_its_first_differences() {
    let one = |i: usize| Mismatch {
        layer: "Index".to_string(),
        kind: "Mode".to_string(),
        path: if i == 0 { None } else { Some(format!("p{i}")) },
        expected: "1".to_string(),
        actual: "2".to_string(),
    };
    assert!(require_equivalence("dev", &vec![]).is_ok());
    let told =
        git_message(require_equivalence("dev", &(0..12).map(one).collect()).unwrap_err());
    assert!(told.starts_with(
        "CB-4B publication equivalence failed for view 'dev': Index/Mode: expected 1, observed 2; Index/Mode at 'p1': expected 1, observed 2; "
    ));
    assert!(told.contains("'p7'") && !told.contains("'p8'"));
    assert!(told.ends_with(". No publication mutation was attempted"));
}

fn evidence(head: Option<&str>) -> PublicationEvidence {
    PublicationEvidence {
        view: "dev".to_string(),
        policy_root: "P".to_string(),
        atomic_state: "S".to_string(),
        manifest_root: "M".to_string(),
        index_root: "I".to_string(),
        worktree_root: "W".to_string(),
        git_tree: "T".to_string(),
        algorithm: GitHashAlgorithm::Sha1,
        git_head: head.map(|h| h.to_string()),
    }
}

#[test]
fn a_publication_holds_only_while_nothing_moved() {
    assert!(evidence(Some("C")).reobserve(&evidence(Some("C"))).is_ok());
    let mut moved = evidence(Some("C"));
    moved.worktree_root = "W2".to_string();
    assert_eq!(
        git_message(evidence(Some("C")).reobserve(&moved).unwrap_err()),
        "publication state changed after equivalence verification; retry from fresh observations"
    );
    assert!(evidence(Some("C")).head_is(Some("C")));
    assert!(!evidence(Some("C")).head_is(None));
    assert!(evidence(Some("C")).reobserve_for_git_push("C", "T").is_ok());
    assert_eq!(
        git_message(evidence(None).reobserve_for_git_push("C", "T").unwrap_err()),
        "cannot publish an unborn Git HEAD"
    );
    assert_eq!(
        git_message(evidence(Some("C")).reobserve_for_git_push("D", "T").unwrap_err()),
        "Git HEAD lease changed before push: expected commit C with tree T, found commit D with tree T"
    );
}

#[test]
fn a_bound_commit_is_the_one_that_is_pushed() {
    let mut e = evidence(Some("OLD"));
    e.bind_committed_head("NEW", "T", Some("NEW")).unwrap();
    assert_eq!(e.git_head.as_deref(), Some("NEW"));
    assert!(e.reobserve_for_git_push("NEW", "T").is_ok());
    assert!(e.reobserve_for_git_push("OLD", "T").is_err());
    assert_eq!(
        git_message(evidence(None).bind_committed_head("NEW", "U", Some("NEW")).unwrap_err()),
        "refusing to bind a Git commit whose tree differs from the verified project tree"
    );
    assert_eq!(
        git_message(evidence(None).bind_committed_head("NEW", "T", None).unwrap_err()),
        "cannot bind publication to an unborn or symbolic-only HEAD"
    );
    assert_eq!(
        git_message(evidence(None).bind_committed_head("NEW", "T", Some("X")).unwrap_err()),
        "Git HEAD changed while binding publication: expected NEW, found X"
    );
}

#[test]
fn a_shadow_is_active_where_git_leaves_atomic_out() {
    assert!(shadow_sync_active(Some("*.o\n/.atomic/\n")));
    assert!(!shadow_sync_active(Some("*.o\n")));
    assert!(!shadow_sync_active(None));
}

#[test]
fn a_shared_view_exports_conflicts_only_on_demand() {
    let export = |entries: Option<u64>, scope: ViewScope, allow: bool| {
        resolve_conflict_export("main", entries, scope, allow)
    };
    assert_eq!(export(None, ViewScope::Shared, false).unwrap(), ConflictExport::Clean);
    assert_eq!(export(Some(2), ViewScope::Draft, false).unwrap(), ConflictExport::Snapshot);
    assert_eq!(export(Some(2), ViewScope::Shared, true).unwrap(), ConflictExport::Snapshot);
    let told = match export(Some(2), ViewScope::Shared, false).unwrap_err() {
        CliError::GitError { message } | CliError::InvalidOperation { message } => message,
        other => panic!("unexpected error {:?}", other),
    };
    assert!(told.starts_with("view 'main' has 2 unresolved Atomic conflict(s);"));
    assert!(confirm_snapshot(true).is_ok());
    assert!(confirm_snapshot(false).is_err());
}

#[test]
fn a_projection_lands_where_its_view_is_mapped() {
    let shared = resolve_head_policy("main", None, None, None);
    assert_eq!(target_ref(&shared, "main"), "refs/heads/main");
    let draft = resolve_head_policy("dev", Some(ViewScope::Draft), None, None);
    assert!(matches!(&draft, HeadPolicy::Draft { view_ref } if view_ref == "refs/atomic/views/dev"));
    let ephemeral = resolve_head_policy("git/0123abc", Some(ViewScope::Draft), None, Some("O"));
    assert!(matches!(&ephemeral, HeadPolicy::Ephemeral { original } if original == "O"));
    assert_eq!(target_ref(&ephemeral, "git/0123abc"), "refs/atomic/views/git/0123abc");
    assert_eq!(ephemeral_prefix("git/0123abC").as_deref(), Some("0123abC"));
    assert_eq!(ephemeral_prefix("git/0123ab"), None);
    assert_eq!(ephemeral_prefix("git/0123abg"), None);
    assert_eq!(ephemeral_prefix("dev"), None);
}

#[test]
fn a_projection_moves_everything_to_one_commit() {
    let shared = resolve_head_policy("main", Some(ViewScope::Shared), None, None);
    let plan = publish_projection(&shared, "main", "C", "T", true);
    assert!(matches!(&plan.intended_ref, Some(RefTarget::Direct(c)) if c == "C"));
    assert!(matches!(&plan.intended_head, Some(RefTarget::Symbolic(r)) if r == "refs/heads/main"));
    assert_eq!(plan.checkpoint_symref.as_deref(), Some("refs/heads/main"));
    assert_eq!(plan.index_tree.as_deref(), Some("T"));
    assert!(plan.create_commit);
    let draft = resolve_head_policy("dev", Some(ViewScope::Draft), None, None);
    let plan = publish_projection(&draft, "dev", "C", "T", false);
    assert!(matches!(&plan.intended_head, Some(RefTarget::Direct(c)) if c == "C"));
    assert_eq!(plan.checkpoint_symref, None);
}

#[test]
fn an_unchanged_ephemeral_view_keeps_its_commit() {
    let ephemeral = resolve_head_policy("git/0123abc", Some(ViewScope::Draft), None, Some("O"));
    let start = |export: ConflictExport, tree: &str| {
        start_projection(&ephemeral, "git/0123abc", export, Some(("O", "T")), tree)
    };
    match start(ConflictExport::Clean, "T") {
        ProjectionStart::Retain(plan) => {
            assert!(plan.intended_ref.is_none());
            assert_eq!(plan.checkpoint_head.as_deref(), Some("O"));
            assert!(!plan.create_commit);
        }
        other => panic!("unexpected start {:?}", other),
    }
    assert!(matches!(
        start(ConflictExport::Clean, "U"),
        ProjectionStart::Build(ConflictMarkerPolicy::Refuse)
    ));
    assert!(matches!(
        start(ConflictExport::Snapshot, "T"),
        ProjectionStart::Build(ConflictMarkerPolicy::AllowExplicitly)
    ));
}

#[test]
fn a_failed_projection_restores_what_it_captured() {
    assert_eq!(recovery_of(true), FailureRecovery::LeaveToJournal);
    assert_eq!(recovery_of(false), FailureRecovery::RestoreSnapshot);
    let snapshot = |exists: bool, target: Option<&str>, symbolic: Option<&str>| {
        snapshot_reference("HEAD", exists, target, symbolic)
    };
    let restored = |exists: bool, target: Option<&str>, symbolic: Option<&str>| {
        restore_reference(&snapshot(exists, target, symbolic).unwrap())
    };
    assert!(matches!(restored(false, None, None), RestoreAction::Delete));
    assert!(matches!(restored(true, Some("C"), None), RestoreAction::SetDirect(c) if c == "C"));
    assert!(matches!(restored(true, None, Some("R")), RestoreAction::SetSymbolic(r) if r == "R"));
    assert_eq!(
        git_message(snapshot(true, None, None).unwrap_err()),
        "cannot snapshot Git reference 'HEAD': it has no target"
    );
    assert_eq!(projection_failure("boom", &vec![]), "boom");
    assert_eq!(
        projection_failure("boom", &vec!["a".to_string(), "b".to_string()]),
        "boom; additionally failed to restore original Git state: a; b"
    );
}

#[test]
fn a_projection_builds_on_the_tip_of_its_ref() {
    let draft = HeadPolicy::Draft { view_ref: "refs/atomic/views/dev".to_string() };
    let ephemeral = HeadPolicy::Ephemeral { original: "A".to_string() };
    let parent = |policy: &HeadPolicy,
                  tip: Option<(&str, &str)>,
                  adopted: Result<&str, &str>,
                  head: Result<&str, &str>| {
        projection_parent("dev", policy, tip, adopted, head, "T")
    };
    assert!(matches!(
        parent(&draft, Some(("C", "T")), Err("n"), Err("x")).unwrap(),
        ProjectionParent::AlreadyProjected(c) if c == "C"
    ));
    assert!(matches!(
        parent(&ephemeral, Some(("C", "U")), Ok("A"), Ok("H")).unwrap(),
        ProjectionParent::Parent(c) if c == "C"
    ));
    assert!(matches!(
        parent(&ephemeral, None, Ok("A"), Ok("H")).unwrap(),
        ProjectionParent::Parent(c) if c == "A"
    ));
    assert_eq!(
        git_message(parent(&ephemeral, None, Err("gone"), Ok("H")).unwrap_err()),
        "ephemeral default parent A is unreadable: gone"
    );
    // No other view has an adopted commit.
    for adopted in [Ok("A"), Err("gone")] {
        assert!(matches!(
            parent(&draft, None, adopted, Ok("H")).unwrap(),
            ProjectionParent::Parent(c) if c == "H"
        ));
    }
    assert_eq!(
        git_message(parent(&draft, None, Ok("A"), Err("unborn")).unwrap_err()),
        "cannot create shadow projection for 'dev' without a current Git HEAD commit: unborn"
    );
    assert!(confirm_projection("dev", "T", "dev", "T").is_ok());
    assert_eq!(
        git_message(confirm_projection("dev", "T", "dev", "U").unwrap_err()),
        "shadow projection does not match verified publication"
    );
}

#[test]
fn a_projection_has_an_author_and_a_committer() {
    let c = projection_committer(Some(("Ann", None)));
    assert_eq!((c.name.as_str(), c.email.as_str()), ("Ann", "atomic@invalid"));
    let c = projection_committer(Some(("", Some("x"))));
    assert_eq!((c.name.as_str(), c.email.as_str()), ("atomic", "atomic@invalid"));
    let a = projection_author_name(None, None, None);
    assert_eq!((a.name.as_str(), a.email.as_str()), ("Atomic", "atomic@localhost"));
    let a = projection_author_name(Some(("Bob", None)), Some("Git"), Some("g"));
    assert_eq!((a.name.as_str(), a.email.as_str()), ("Bob", ""));
}

#[test]
fn a_projection_message_names_view_and_state() {
    assert_eq!(
        projection_message_for(Some("H"), "dev", "S"),
        "Atomic record projection\n\nAtomic-View: dev\nAtomic-State: S\nAtomic-Changes: H\n"
    );
    assert_eq!(
        projection_message_for(None, "dev", "S"),
        "Atomic shadow switch projection\n\nAtomic-View: dev\nAtomic-State: S\n"
    );
}

#[test]
fn a_record_projects_only_its_own_view() {
    let draft = resolve_head_policy("dev", Some(ViewScope::Draft), None, None);
    let decide = |active: bool, desired: &str, markers: bool| {
        record_projection(active, desired, "dev", &draft, markers)
    };
    assert_eq!(decide(true, "dev", false), RecordProjection::Project);
    assert_eq!(decide(true, "dev", true), RecordProjection::SkipMarkers);
    assert_eq!(decide(true, "main", false), RecordProjection::Skip);
    assert_eq!(decide(false, "dev", false), RecordProjection::Skip);
    let ephemeral = resolve_head_policy("dev", Some(ViewScope::Draft), None, Some("O"));
    assert_eq!(
        record_projection(true, "dev", "dev", &ephemeral, false),
        RecordProjection::Skip
    );
}

#[test]
fn a_switch_synchronizes_or_fails_loudly() {
    let start = |git: bool, active: bool, desired: &str, free: bool| {
        start_switch(git, active, desired, "dev", free)
    };
    assert_eq!(start(false, true, "x", false).unwrap(), SwitchStart::SkippedNoGit);
    assert_eq!(start(true, false, "x", false).unwrap(), SwitchStart::SkippedInactive);
    assert_eq!(start(true, true, "dev", true).unwrap(), SwitchStart::Project);
    assert_eq!(
        git_message(start(true, true, "main", true).unwrap_err()),
        "cannot synchronize Git shadow for view 'dev': current Atomic view is 'main'"
    );
    assert_eq!(
        git_message(start(true, true, "dev", false).unwrap_err()),
        "another shadow materialize is in flight; retry the view switch after it completes"
    );
}

#[test]
fn the_log_tells_what_was_refused() {
    assert_eq!(append_shadow_log("T", "switch", "dev", "ok"), "T switch view=dev ok\n");
    assert_eq!(
        append_shadow_validate_log("T", "V3", "dev", "drift"),
        "T shadow-validate:V3 view=dev drift\n"
    );
}

#[test]
fn an_index_is_restored_to_what_was_captured() {
    let captured = Some(b"DIRC".to_vec());
    assert!(matches!(restore_index(&captured, true), IndexRestore::Write(b) if b == b"DIRC"));
    assert!(matches!(restore_index(&captured, false), IndexRestore::Write(b) if b == b"DIRC"));
    assert!(matches!(restore_index(&None, true), IndexRestore::Remove));
    assert!(matches!(restore_index(&None, false), IndexRestore::Leave));
}
