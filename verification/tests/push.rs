use atomic_git::error::CliError;
use atomic_git::message::{parse_push_trailer, parse_trailer, Merkle};
use atomic_git::push::{
    require_current_pack, ConflictGate, GitHashAlgorithm, HistoryEntry, HistoryPlan, LeasePlan,
    ProjectionAuthor, PublicationText, Push, PushStep, PushedCommit,
};
use atomic_git::ref_mapping::{
    baseline_mapping, record_remote_push_observation, RemotePair, ViewScope,
};

#[test]
fn test_push_default() {
    let push = Push::default();
    assert!(push.message.is_none());
    assert!(!push.no_push);
    assert_eq!(push.remote, "origin");
}

#[test]
fn test_push_with_message() {
    let push = Push {
        message: Some("custom message".to_string()),
        no_push: true,
        remote: "upstream".to_string(),
        branch: Some("pr-branch".to_string()),
        allow_conflict_markers: false,
        allow_conflicts: false,
    };
    assert_eq!(push.message.as_deref(), Some("custom message"));
    assert!(push.no_push);
    assert_eq!(push.remote, "upstream");
    assert_eq!(push.branch.as_deref(), Some("pr-branch"));
}

#[test]
fn test_resolve_branch_override_explicit_wins() {
    // Explicit --branch wins regardless of scope.
    assert_eq!(
        Push::resolve_branch_override(Some("pr-42"), ViewScope::Draft, "feature").unwrap(),
        Some("pr-42".to_string())
    );
    assert_eq!(
        Push::resolve_branch_override(Some("pr-42"), ViewScope::Shared, "main").unwrap(),
        Some("pr-42".to_string())
    );
}

#[test]
fn test_resolve_branch_override_draft_maps_to_view() {
    assert_eq!(
        Push::resolve_branch_override(None, ViewScope::Draft, "feature-login").unwrap(),
        Some("feature-login".to_string())
    );
}

#[test]
fn test_resolve_branch_override_shared_is_none() {
    assert_eq!(
        Push::resolve_branch_override(None, ViewScope::Shared, "main").unwrap(),
        None
    );
}

#[test]
fn test_resolve_branch_override_invalid_refname_errors() {
    let err = Push::resolve_branch_override(None, ViewScope::Draft, "bad~name").unwrap_err();
    match err {
        CliError::GitError { message } => {
            assert!(message.contains("bad~name"));
            assert!(message.contains("--branch"));
        }
        other => panic!("expected GitError, got {:?}", other),
    }
}

fn repository(dir: &tempfile::TempDir) -> git2::Repository {
    git2::Repository::init_opts(
        dir.path(),
        git2::RepositoryInitOptions::new().initial_head("main").mkdir(false),
    )
    .unwrap()
}

fn commit_in(repo: &git2::Repository, message: &str, parent: Option<git2::Oid>) -> git2::Oid {
    let sig = git2::Signature::now("Test", "test@example.com").unwrap();
    let tree_oid = repo.index().unwrap().write_tree().unwrap();
    let tree = repo.find_tree(tree_oid).unwrap();
    let parent = parent.map(|p| repo.find_commit(p).unwrap());
    let parents: Vec<&git2::Commit> = parent.iter().collect();
    repo.commit(Some("HEAD"), &sig, &sig, message, &tree, &parents).unwrap()
}

/// What Git says of a branch and its push target, and the count made of it.
fn unpushed(
    push: &Push,
    repo: &git2::Repository,
    branch: &str,
    override_branch: Option<&str>,
) -> usize {
    let local_ref = format!("refs/heads/{branch}");
    let local = repo.refname_to_id(&local_ref).ok();
    let upstream = match push.comparison_ref(override_branch) {
        Some(name) => repo.refname_to_id(&name).ok(),
        None => repo
            .branch_upstream_name(&local_ref)
            .ok()
            .and_then(|name| name.as_str().map(|s| s.to_string()))
            .and_then(|name| repo.refname_to_id(&name).ok()),
    };
    let ahead = match (local, upstream) {
        (Some(l), Some(u)) => repo.graph_ahead_behind(l, u).ok().map(|(ahead, _)| ahead),
        _ => None,
    };
    push.unpushed_commit_count(local.is_some(), upstream.is_some(), ahead)
}

#[test]
fn test_unpushed_commit_count_no_upstream() {
    let dir = tempfile::TempDir::new().unwrap();
    let repo = repository(&dir);
    commit_in(&repo, "init", None);
    let push = Push::default();
    // No upstream configured: nothing counted as unpushed.
    assert_eq!(unpushed(&push, &repo, "main", None), 0);
    // Unknown branch: 0, not an error.
    assert_eq!(unpushed(&push, &repo, "nonexistent", None), 0);
}

#[test]
fn test_unpushed_commit_count_ahead_of_upstream() {
    let dir = tempfile::TempDir::new().unwrap();
    let repo = repository(&dir);
    // First commit: this is what "origin/main" points at.
    let first = commit_in(&repo, "init", None);
    repo.remote("origin", "https://example.com/rocket.git").unwrap();
    repo.reference("refs/remotes/origin/main", first, true, "remote").unwrap();
    let mut config = repo.config().unwrap();
    config.set_str("branch.main.remote", "origin").unwrap();
    config.set_str("branch.main.merge", "refs/heads/main").unwrap();

    let push = Push::default();
    assert_eq!(unpushed(&push, &repo, "main", None), 0);

    // A second local commit puts us one ahead of the upstream.
    commit_in(&repo, "work", Some(first));
    assert_eq!(unpushed(&push, &repo, "main", None), 1);

    // A redirected target branch counts from its own remote-tracking ref.
    assert_eq!(unpushed(&push, &repo, "main", Some("feature")), 0);
    repo.reference("refs/remotes/origin/feature", first, true, "remote").unwrap();
    assert_eq!(unpushed(&push, &repo, "main", Some("feature")), 1);
}

#[test]
fn test_target_branch() {
    let dir = tempfile::TempDir::new().unwrap();
    let repo = repository(&dir);
    commit_in(&repo, "init", None);
    let head = repo.head().unwrap();
    // Default (no override): the checked-out branch.
    assert_eq!(Push::default().target_branch(head.shorthand(), None), "main");
    // A resolved override wins.
    assert_eq!(Push::default().target_branch(head.shorthand(), Some("pr-42")), "pr-42");
    assert_eq!(Push::default().target_branch(None, None), "HEAD");
}

fn entry(hash: &str, state: u128, message: Option<&str>) -> HistoryEntry {
    HistoryEntry {
        hash: hash.to_string(),
        state: Merkle { hi: state, lo: 0 },
        message: message.map(|m| m.to_string()),
    }
}

fn publication() -> PublicationText {
    PublicationText {
        view: "dev".to_string(),
        atomic_state: "STATE".to_string(),
        manifest: "MANIFEST".to_string(),
        policy: "POLICY".to_string(),
        algorithm: GitHashAlgorithm::Sha1,
        tree: "TREE".to_string(),
    }
}

fn author(agent: Option<&str>) -> ProjectionAuthor {
    ProjectionAuthor {
        name: "Ann".to_string(),
        email: "ann@example.com".to_string(),
        did: "did:ann".to_string(),
        agent_did: agent.map(|a| a.to_string()),
    }
}

#[test]
fn a_push_message_carries_its_claims() {
    let history = vec![entry("H1", 1, Some("First")), entry("H2", 2, Some("Second"))];
    let message = Push::default()
        .build_commit_message(
            &history,
            "STATE",
            true,
            "dev",
            &publication(),
            "SET",
            &author(Some("did:agent")),
        )
        .unwrap();
    assert_eq!(
        message,
        "2 Atomic changes\n\n* Second\n\n* First\n\n\
         Atomic-View: dev\nAtomic-State: STATE\nAtomic-Manifest: MANIFEST\n\
         Atomic-Policy: POLICY\nAtomic-Algorithm: sha1\nAtomic-Tree: TREE\n\
         atomic-set SET\natomic-state STATE\natomic-author did:ann\n\
         atomic-agent did:agent\nCo-authored-by: Ann <did:agent>\n\
         Atomic-Changes: H1, H2\n"
    );
    // What a push writes is recognised as a push of the same state.
    let trailer = parse_push_trailer(&message, Some(Merkle { hi: 2, lo: 0 })).unwrap();
    assert_eq!(trailer.view, "dev");
    assert_eq!(trailer.state, Merkle { hi: 2, lo: 0 });
    assert_eq!(parse_trailer(&message, "Atomic-State"), Some("STATE".to_string()));
    // The next push starts behind it.
    let commits = vec![
        PushedCommit { message: "other".to_string(), decoded: None },
        PushedCommit { message, decoded: Some(Merkle { hi: 2, lo: 0 }) },
    ];
    let last = Push::default().find_last_pushed_state(&commits, "dev");
    assert_eq!(last, Some(Merkle { hi: 2, lo: 0 }));
    assert_eq!(
        Push::default().plan_history("dev", &history, last).unwrap(),
        HistoryPlan::Publish { start: 2 }
    );
    assert_eq!(Push::default().find_last_pushed_state(&commits, "main"), None);
    // However far back it is.
    let mut long: Vec<PushedCommit> = (0..2_500)
        .map(|_| PushedCommit { message: "other".to_string(), decoded: None })
        .collect();
    long.extend(commits);
    assert_eq!(
        Push::default().find_last_pushed_state(&long, "dev"),
        Some(Merkle { hi: 2, lo: 0 })
    );
}

#[test]
fn odd_values_of_a_push_are_recognised() {
    // Blanks, colons and nothing at all, each on one line.
    for (view, manifest, set, did) in [
        ("", "", "SET", "did:ann"),
        ("a b", " padded ", "SET id", "did: ann"),
        ("x: y", "Atomic-View: z", " SET", "Ann"),
    ] {
        let mut text = publication();
        text.view = view.to_string();
        text.manifest = manifest.to_string();
        let mut by = author(Some("did:agent"));
        by.name = "Ann <odd> \u{e9}".to_string();
        by.did = did.to_string();
        let message = Push::default()
            .build_commit_message(
                &vec![entry("H1", 1, None)],
                "STATE",
                true,
                view,
                &text,
                set,
                &by,
            )
            .unwrap();
        let trailer = parse_push_trailer(&message, Some(Merkle { hi: 2, lo: 0 })).unwrap();
        assert_eq!(trailer.view, view);
        assert_eq!(trailer.state, Merkle { hi: 2, lo: 0 });
        assert_eq!(trailer.changes, vec!["H1"]);
    }
}

#[test]
fn a_push_message_without_changes_says_so() {
    let build = |push: &Push, history: &Vec<HistoryEntry>| {
        push.build_commit_message(
            history,
            "STATE",
            true,
            "dev",
            &publication(),
            "SET",
            &author(None),
        )
        .unwrap()
    };
    let push = Push::default();
    assert!(build(&push, &vec![]).starts_with("Working copy changes\n\nAtomic-View: dev\n"));
    assert!(!build(&push, &vec![]).contains("Atomic-Changes"));
    assert!(build(&push, &vec![entry("H", 1, Some("Only one"))]).starts_with("Only one\n\n"));
    let mut custom = Push::default();
    custom.message = Some("Mine".to_string());
    assert!(build(&custom, &vec![entry("H", 1, None)]).starts_with("Mine\n\n"));
}

fn git_message(error: CliError) -> String {
    match error {
        CliError::GitError { message } => message,
        other => panic!("expected a Git error, got {:?}", other),
    }
}

fn refused_operation(error: CliError) -> String {
    match error {
        CliError::InvalidOperation { message } => message,
        other => panic!("expected a refused operation, got {:?}", other),
    }
}

#[test]
fn a_push_message_is_only_for_the_verified_state() {
    let build = |state: &str, decodes: bool, view: &str| {
        git_message(
            Push::default()
                .build_commit_message(
                    &vec![],
                    state,
                    decodes,
                    view,
                    &publication(),
                    "SET",
                    &author(None),
                )
                .unwrap_err(),
        )
    };
    let changed = "Atomic view/state changed after publication verification";
    assert_eq!(build("OTHER", true, "dev"), changed);
    assert_eq!(build("STATE", true, "main"), changed);
    assert_eq!(build("STATE", false, "dev"), "verified view state is not a valid Merkle value");
}

#[test]
fn a_conflicted_view_is_exported_only_on_demand() {
    let push = Push::default();
    assert_eq!(push.conflict_gate("dev", false).unwrap(), ConflictGate::Clear);
    assert!(refused_operation(push.conflict_gate("dev", true).unwrap_err())
        .starts_with("view 'dev' has unresolved Atomic conflicts; remote export is refused."));
    let mut allowed = Push::default();
    allowed.allow_conflicts = true;
    assert_eq!(allowed.conflict_gate("dev", true).unwrap(), ConflictGate::RequirePack);
    assert!(require_current_pack(true, "SET").is_ok());
    assert_eq!(
        refused_operation(require_current_pack(false, "SET").unwrap_err()),
        "--allow-conflicts requires a published binding whose conflicts.pack verifies against the CURRENT conflict set (SET); no such pack exists, so the export stays refused"
    );
}

#[test]
fn only_history_behind_the_last_push_is_published() {
    let push = Push::default();
    let history = vec![entry("a", 1, None), entry("b", 2, None), entry("c", 3, None)];
    let at = |n: u128| Some(Merkle { hi: n, lo: 0 });
    assert_eq!(
        push.plan_history("dev", &vec![], at(1)).unwrap(),
        HistoryPlan::NothingRecorded
    );
    assert_eq!(
        push.plan_history("dev", &history, None).unwrap(),
        HistoryPlan::Publish { start: 0 }
    );
    assert_eq!(
        push.plan_history("dev", &history, at(2)).unwrap(),
        HistoryPlan::Publish { start: 2 }
    );
    assert!(git_message(push.plan_history("dev", &history, at(9)).unwrap_err())
        .starts_with("git shadow drift (V3): the branch was last published from a state view 'dev' cannot reach."));
}

#[test]
fn an_unchanged_tree_is_not_committed() {
    let mut push = Push::default();
    let notice = |step: PushStep| match step {
        PushStep::Commit => "commit".to_string(),
        PushStep::Stop { notice } => format!("stop: {notice}"),
        PushStep::PushExisting { notice, target } => format!("{target}: {notice}"),
    };
    assert_eq!(notice(push.plan_commit(false, 0, "main", None)), "commit");
    assert_eq!(
        notice(push.plan_commit(true, 0, "main", None)),
        "stop: Working copy matches Git HEAD. Nothing to commit."
    );
    assert_eq!(
        notice(push.plan_commit(true, 1, "main", None)),
        "main: Nothing to commit, but 1 unpushed commit. Pushing..."
    );
    assert_eq!(
        notice(push.plan_commit(true, 0, "main", Some("pr"))),
        "pr: Nothing to commit. Pushing current state to origin/pr..."
    );
    push.no_push = true;
    assert_eq!(
        notice(push.plan_commit(true, 2, "main", None)),
        "stop: Nothing to commit, but 2 unpushed commits (--no-push set)."
    );
    assert_eq!(
        notice(push.plan_commit(true, 0, "main", Some("pr"))),
        "stop: Nothing to commit (--no-push set)."
    );
}

#[test]
fn a_push_names_the_verified_commit() {
    assert_eq!(Push::destination("main", None), "refs/heads/main");
    assert_eq!(Push::destination("main", Some("pr")), "refs/heads/pr");
    assert_eq!(Push::refspec("refs/heads/pr", true, Some("C")).unwrap(), "C:refs/heads/pr");
    assert_eq!(
        git_message(Push::refspec("refs/x", false, Some("C")).unwrap_err()),
        "refusing to publish local recovery ref 'refs/x'"
    );
    assert_eq!(
        git_message(Push::refspec("refs/x", true, None).unwrap_err()),
        "the verified publication carries no Git commit to push"
    );
    let push = Push::default();
    assert_eq!(push.push_arguments(None, "C:R"), vec!["push", "origin", "C:R"]);
    assert_eq!(push.push_arguments(Some("L"), "C:R"), vec!["push", "origin", "L", "C:R"]);
    assert!(Push::remote_holds_push(Some("C"), "C"));
    assert!(!Push::remote_holds_push(Some("D"), "C"));
    assert!(!Push::remote_holds_push(None, "C"));
    assert_eq!(
        git_message(Push::push_failure("exit status: 1", false)),
        "git push exited with exit status: 1"
    );
    assert!(git_message(Push::push_failure("exit status: 1", true))
        .contains("the lease refused to overwrite newer external work"));
    assert_eq!(
        Push::created_notice("abc", "dev", 1),
        "Created git commit abc on view 'dev' (1 new change)"
    );
    assert_eq!(
        Push::created_notice("abc", "dev", 3),
        "Created git commit abc on view 'dev' (3 new changes)"
    );
    assert_eq!(
        Push::created_notice("abc", "dev", 0),
        "Created git commit abc on view 'dev' (working copy changes)"
    );
}

#[test]
fn a_push_is_leased_against_what_was_observed() {
    let push = Push::default();
    let mut mapping =
        baseline_mapping(7, "dev", ViewScope::Draft, false, Some("T"), "STATE");
    assert!(matches!(push.lease_plan(None, "refs/heads/dev"), LeasePlan::ObserveFirst));
    assert!(matches!(
        push.lease_plan(Some(&mapping), "refs/heads/dev"),
        LeasePlan::ObserveFirst
    ));
    mapping.last_observed_remote = Some("OLD".to_string());
    assert!(matches!(
        push.lease_plan(Some(&mapping), "refs/heads/dev"),
        LeasePlan::Leased(l) if l == "--force-with-lease=refs/heads/dev:OLD"
    ));
    mapping.remote = Some(RemotePair {
        remote: "origin".to_string(),
        reference: "refs/heads/other".to_string(),
    });
    assert!(matches!(push.lease_plan(Some(&mapping), "refs/heads/dev"), LeasePlan::Unleased));
    assert_eq!(
        Push::lease_after_observation(None, "refs/heads/dev").as_deref(),
        Some("--force-with-lease=refs/heads/dev:")
    );
    assert_eq!(Push::lease_after_observation(Some("T"), "refs/heads/dev"), None);
}

#[test]
fn the_next_push_is_leased_against_this_one() {
    let push = Push::default();
    let recorded = record_remote_push_observation(
        None,
        7,
        "dev",
        ViewScope::Draft,
        "origin",
        "refs/heads/dev",
        "c1",
        "S",
    );
    match push.lease_plan(Some(&recorded), "refs/heads/dev") {
        LeasePlan::Leased(lease) => assert_eq!(lease, "--force-with-lease=refs/heads/dev:c1"),
        other => panic!("not leased: {other:?}"),
    }
    // Another destination was not observed.
    assert!(matches!(push.lease_plan(Some(&recorded), "refs/heads/x"), LeasePlan::Unleased));
}
