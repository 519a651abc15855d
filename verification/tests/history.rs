use std::collections::HashMap;
use std::time::{Duration, Instant};

use atomic_git::error::CliError;
use atomic_git::history::{
    detect_git_boundaries, shallow_boundary_oids, verify_commit_closure_objects_with_shallow,
    ClosureObservation, FrontierWalk, GitClosureBoundary,
};
use atomic_git::sequence::{
    detect_deepened_history, sequence_commits_deterministically, CommitNode,
};

fn message_of(error: CliError) -> String {
    match error {
        CliError::GitError { message } => message,
        other => panic!("unexpected error {:?}", other),
    }
}

fn node_of(git: &git2::Repository, oid: git2::Oid) -> CommitNode {
    let commit = git.find_commit(oid).unwrap();
    CommitNode {
        oid: oid.to_string(),
        committer_time: commit.time().seconds(),
        parents: commit.parent_ids().map(|p| p.to_string()).collect(),
    }
}

fn nodes_of(git: &git2::Repository, oids: &[git2::Oid]) -> Vec<CommitNode> {
    oids.iter().map(|oid| node_of(git, *oid)).collect()
}

fn commit_file(
    git: &git2::Repository,
    name: &str,
    content: &str,
    reference: &str,
    time: i64,
    parent: Option<git2::Oid>,
) -> git2::Oid {
    let signature =
        git2::Signature::new("Bridge", "bridge@example.com", &git2::Time::new(time, 0)).unwrap();
    let blob = git.blob(content.as_bytes()).unwrap();
    let parent_commit = parent.map(|oid| git.find_commit(oid).unwrap());
    let parent_tree = parent_commit.as_ref().map(|c| c.tree().unwrap());
    let mut builder = git.treebuilder(parent_tree.as_ref()).unwrap();
    builder.insert(name, blob, 0o100644).unwrap();
    let tree = git.find_tree(builder.write().unwrap()).unwrap();
    let parents: Vec<&git2::Commit> = match &parent_commit {
        Some(commit) => vec![commit],
        None => Vec::new(),
    };
    git.commit(Some(reference), &signature, &signature, name, &tree, &parents).unwrap()
}

/// A repository with a chain of commits, each made at the same time.
fn chained_git_repo(
    commits: usize,
    committer_time: i64,
) -> (tempfile::TempDir, git2::Repository, Vec<git2::Oid>) {
    let temp = tempfile::TempDir::new().unwrap();
    let repo = git2::Repository::init(temp.path()).unwrap();
    repo.set_head("refs/heads/main").unwrap();
    let mut chain: Vec<git2::Oid> = Vec::new();
    for index in 0..commits {
        let oid = commit_file(
            &repo,
            &format!("file-{index:04}.txt"),
            &format!("content {index}\n"),
            "refs/heads/main",
            committer_time,
            chain.last().copied(),
        );
        chain.push(oid);
    }
    (temp, repo, chain)
}

#[test]
fn incremental_first_parent_collection_stops_at_indexed_frontier() {
    let (_temp, git, chain) = chained_git_repo(252, 1_700_000_000);
    let frontier = chain[250];
    let tip = chain[251];
    let started = Instant::now();
    let mut walk = FrontierWalk::new(&vec![frontier.to_string()], &tip.to_string());
    while let Some(oid) = walk.next() {
        let commit = git.find_commit(git2::Oid::from_str(&oid).unwrap()).unwrap();
        walk.take_parents(&commit.parent_ids().map(|p| p.to_string()).collect());
    }
    let collected = walk.finish();
    let elapsed = started.elapsed();
    assert_eq!(collected, vec![tip.to_string()]);
    assert!(
        elapsed < Duration::from_secs(1),
        "incremental frontier lookup took {elapsed:?}"
    );
}

#[test]
fn a_walk_hands_out_parents_before_their_children() {
    // The merge reaches `b` both directly and through `a`.
    let parents: HashMap<&str, Vec<&str>> = HashMap::from([
        ("m", vec!["b", "a"]),
        ("a", vec!["b"]),
        ("b", vec!["p"]),
    ]);
    let mut walk = FrontierWalk::new(&vec!["p".to_string()], "m");
    while let Some(oid) = walk.next() {
        let ps = &parents[oid.as_str()];
        walk.take_parents(&ps.iter().map(|p| p.to_string()).collect());
    }
    assert_eq!(walk.finish(), vec!["b", "a", "m"]);
}

#[test]
fn a_walk_collects_every_parent_of_a_merge_once() {
    let parents: HashMap<&str, Vec<&str>> = HashMap::from([
        ("m", vec!["a", "b"]),
        ("a", vec!["r"]),
        ("b", vec!["r"]),
        ("r", vec![]),
    ]);
    let mut walk = FrontierWalk::new(&Vec::new(), "m");
    while let Some(oid) = walk.next() {
        let ps = &parents[oid.as_str()];
        walk.take_parents(&ps.iter().map(|p| p.to_string()).collect());
    }
    assert_eq!(walk.finish(), vec!["r", "b", "a", "m"]);
}

#[test]
fn bridge_sequencing_orders_parents_before_children_and_is_deterministic() {
    let (_temp, git, oids) = chained_git_repo(4, 1_700_000_000);
    let first = sequence_commits_deterministically(&nodes_of(&git, &oids)).unwrap().0;
    let mut reversed = oids.clone();
    reversed.reverse();
    let second = sequence_commits_deterministically(&nodes_of(&git, &reversed)).unwrap().0;
    assert_eq!(first.len(), 4);
    assert_eq!(first, second, "sequencing must be deterministic");
    // Parents precede children.
    for (position, oid) in first.iter().enumerate() {
        let commit = git.find_commit(git2::Oid::from_str(oid).unwrap()).unwrap();
        for parent in commit.parent_ids() {
            let parent_position = first.iter().position(|c| *c == parent.to_string());
            assert!(
                parent_position.map(|p| p < position).unwrap_or(true),
                "parent {parent} must be sequenced before child {oid}"
            );
        }
    }
}

#[test]
fn bridge_sequencing_breaks_ties_by_committer_time_then_tagged_oid() {
    // Two independent roots committed at the same time.
    let temp = tempfile::TempDir::new().unwrap();
    let git = git2::Repository::init(temp.path()).unwrap();
    let mut roots: Vec<git2::Oid> = Vec::new();
    for (name, branch) in
        [("zebra.txt", "refs/heads/zebra"), ("alpha.txt", "refs/heads/alpha")]
    {
        roots.push(commit_file(&git, name, "content\n", branch, 1_700_000_000, None));
    }
    let (ordered, tie_breaks) =
        sequence_commits_deterministically(&nodes_of(&git, &roots)).unwrap();
    assert_eq!(ordered.len(), 2);
    assert!(tie_breaks >= 1, "the tie must be recorded as a bridge decision");
    // Same committer time: the lower tagged OID bytes win.
    let mut by_oid = roots.clone();
    by_oid.sort_by_key(|oid| oid.as_bytes().to_vec());
    let by_oid: Vec<String> = by_oid.iter().map(|oid| oid.to_string()).collect();
    assert_eq!(ordered, by_oid, "ties break by tagged OID bytes");
    // A later committer time wins over a lower OID.
    let late_root =
        commit_file(&git, "late.txt", "content\n", "refs/heads/late", 1_700_000_100, None);
    let (ordered_with_late, _) =
        sequence_commits_deterministically(&nodes_of(&git, &[late_root, roots[0]])).unwrap();
    assert_eq!(
        ordered_with_late[0],
        roots[0].to_string(),
        "the earlier committer time is sequenced first"
    );
    assert_eq!(ordered_with_late[1], late_root.to_string());
}

fn node(oid: &str, committer_time: i64, parents: &[&str]) -> CommitNode {
    CommitNode {
        oid: oid.to_string(),
        committer_time,
        parents: parents.iter().map(|p| p.to_string()).collect(),
    }
}

#[test]
fn a_cycle_is_never_sequenced() {
    let cycle = vec![node("aa", 1, &["bb"]), node("bb", 1, &["aa"]), node("cc", 1, &[])];
    assert!(matches!(
        sequence_commits_deterministically(&cycle),
        Err(CliError::GitError { .. })
    ));
}

#[test]
fn a_merge_waits_for_both_of_its_parents() {
    let nodes = vec![
        node("mm", 5, &["aa", "bb"]),
        node("bb", 9, &["rr"]),
        node("aa", 3, &["rr"]),
        node("rr", 1, &["below"]),
    ];
    let (order, ties) = sequence_commits_deterministically(&nodes).unwrap();
    assert_eq!(order, vec!["rr", "aa", "bb", "mm"]);
    assert_eq!(ties, 1);
}

fn promisor(values: &[Option<&str>]) -> Vec<Option<String>> {
    values.iter().map(|v| v.map(|s| s.to_string())).collect()
}

#[test]
fn shallow_and_promisor_boundaries_are_detected_and_labeled() {
    assert!(detect_git_boundaries(false, false, &vec![], false, &vec![]).is_empty());
    // A shallow file marks the shallow boundary.
    let boundaries = detect_git_boundaries(true, false, &vec![], false, &vec![]);
    assert!(boundaries.contains(&GitClosureBoundary::Shallow));
    // A promisor remote marks the partial-clone boundary.
    let boundaries =
        detect_git_boundaries(true, false, &promisor(&[Some("true")]), false, &vec![]);
    assert!(boundaries.contains(&GitClosureBoundary::Promisor));
}

#[test]
fn grafts_and_replacements_are_boundaries_too() {
    let refs = vec!["refs/heads/main".to_string(), "refs/replace/abc".to_string()];
    assert_eq!(
        detect_git_boundaries(false, true, &vec![], true, &refs),
        vec![
            GitClosureBoundary::Promisor,
            GitClosureBoundary::Grafts,
            GitClosureBoundary::ReplaceRefs
        ]
    );
    assert!(detect_git_boundaries(false, false, &promisor(&[None, Some("no")]), false, &vec![])
        .is_empty());
    for boundary in [
        GitClosureBoundary::Shallow,
        GitClosureBoundary::Promisor,
        GitClosureBoundary::Grafts,
        GitClosureBoundary::ReplaceRefs,
    ] {
        assert!(!boundary.label().is_empty());
        assert!(!boundary.detail().is_empty());
    }
}

#[test]
fn missing_parent_objects_fail_closed_unless_declared_shallow() {
    // The boundary commit names a parent whose object was never fetched.
    let (_temp, git, chain) = chained_git_repo(3, 1_700_000_000);
    let tip = chain[2].to_string();
    let commit = git.find_commit(chain[2]).unwrap();
    let observed = || {
        vec![ClosureObservation {
            oid: tip.clone(),
            unreadable: None,
            parents: commit.parent_ids().map(|p| (p.to_string(), false)).collect(),
            tree_readable: true,
        }]
    };
    let shallow = shallow_boundary_oids(&format!("{tip}\n"));
    assert!(shallow.contains(&tip), "the tip is the shallow boundary");
    // With the boundary declared, the closure resolves.
    verify_commit_closure_objects_with_shallow(&observed(), &shallow).unwrap();
    // Undeclared, the same object database is an explicit refusal.
    let error =
        verify_commit_closure_objects_with_shallow(&observed(), &vec![]).unwrap_err();
    let message = message_of(error);
    assert!(
        message.contains("closure boundary"),
        "explicit boundary diagnostic required, found: {message}"
    );
}

#[test]
fn unreadable_commits_and_trees_are_refused() {
    let observation = |unreadable: Option<&str>, tree_readable: bool| {
        vec![ClosureObservation {
            oid: "abc".to_string(),
            unreadable: unreadable.map(|u| u.to_string()),
            parents: vec![("p".to_string(), true)],
            tree_readable,
        }]
    };
    let none = vec!["abc".to_string()];
    assert!(verify_commit_closure_objects_with_shallow(&observation(None, true), &none).is_ok());
    assert_eq!(
        message_of(
            verify_commit_closure_objects_with_shallow(&observation(Some("gone"), true), &none)
                .unwrap_err()
        ),
        "Git closure boundary: commit abc cannot be read from the object database (gone); refusing to synthesize history with missing objects"
    );
    assert_eq!(
        message_of(
            verify_commit_closure_objects_with_shallow(&observation(None, false), &none)
                .unwrap_err()
        ),
        "Git closure boundary: commit abc tree cannot be read; refusing to synthesize history with missing objects"
    );
}

#[test]
fn a_shallow_file_lists_one_id_per_line() {
    assert_eq!(shallow_boundary_oids("aaa\n bbb \n\nccc"), vec!["aaa", "bbb", "ccc"]);
}

#[test]
fn deepened_history_never_silently_reinterprets_prior_sequencing() {
    // A, B, C. B was already imported. After deepening, A exists below it.
    let (_temp, git, chain) = chained_git_repo(3, 1_700_000_000);
    let (ordered, _) = sequence_commits_deterministically(&nodes_of(&git, &chain)).unwrap();
    let ordered_nodes: Vec<CommitNode> = ordered
        .iter()
        .map(|oid| node_of(&git, git2::Oid::from_str(oid).unwrap()))
        .collect();
    let error = detect_deepened_history(&ordered_nodes, &vec![chain[1].to_string()]).unwrap_err();
    let message = message_of(error);
    assert!(
        message.contains("deepened"),
        "explicit deepening diagnostic required, found: {message}"
    );
    // New commits ABOVE the indexed frontier are ordinary work.
    let indexed_above = vec![ordered[0].clone(), ordered[1].clone()];
    assert_eq!(detect_deepened_history(&ordered_nodes, &indexed_above).unwrap(), 0);
}

#[test]
fn ties_do_not_depend_on_the_order_of_collection() {
    let node = |oid: &str, time: i64, parents: &[&str]| CommitNode {
        oid: oid.to_string(),
        committer_time: time,
        parents: parents.iter().map(|p| p.to_string()).collect(),
    };
    let nodes = || {
        vec![
            node("m", 4, &["a", "b", "c"]),
            node("c", 3, &["r"]),
            node("a", 3, &["r"]),
            node("b", 2, &["r"]),
            node("r", 1, &[]),
        ]
    };
    let mut reversed = nodes();
    reversed.reverse();
    let first = sequence_commits_deterministically(&nodes()).unwrap();
    let second = sequence_commits_deterministically(&reversed).unwrap();
    assert_eq!(first, second);
    assert_eq!(first.0, vec!["r", "b", "a", "c", "m"]);
    assert_eq!(first.1, 2);
}
