use atomic_git::commit::{CommitMetadata, FileOperation, ParsedCommit, ParsedFile};
use atomic_git::error::CliError;
use atomic_git::graph::{ContentHash, Encoding};
use atomic_git::squash::{
    classify_and_tag_imports, classify_commit, forecast_commit_kind, resolve_originals,
    restored_closure, resurrected_info, resurrection_notice, review_tag, rollback_order,
    squash_claim, squash_info, squash_insert_matches_tree, verified_binding_for, written_info,
    BindingResolution, CommitClassification, ForecastKind, ImportedCommitInfo, MergeStrategy,
    Resurrection, SquashInsert,
};

fn hash(n: u128) -> ContentHash {
    ContentHash { hi: n, lo: n }
}

fn test_info(message: &str, is_merge: bool) -> ImportedCommitInfo {
    ImportedCommitInfo {
        git_sha: "aabbccdd11223344".to_string(),
        short_sha: "aabbccdd".to_string(),
        atomic_hash: ContentHash { hi: 0, lo: 0 },
        is_merge,
        message: message.to_string(),
        squash_insert: None,
    }
}

fn commit(subject: &str, description: Option<&str>, is_merge: bool) -> ParsedCommit {
    ParsedCommit {
        git_sha: "aabbccdd11223344".to_string(),
        short_sha: "aabbccdd".to_string(),
        metadata: CommitMetadata {
            author_name: "Test".to_string(),
            author_email: None,
            author_name_raw: b"Test".to_vec(),
            author_email_raw: None,
            timestamp: 1_700_000_000,
            message: subject.to_string(),
            description: description.map(|d| d.to_string()),
            author_time: 1_700_000_000,
            author_time_offset_seconds: 0,
            committer_name: "Test".to_string(),
            committer_email: None,
            committer_name_raw: b"Test".to_vec(),
            committer_email_raw: None,
            committer_time: 1_700_000_000,
            committer_time_offset_seconds: 0,
        },
        files: Vec::new(),
        parent_index: None,
        parent_oids: Vec::new(),
        committer_time: 1_700_000_000,
        is_merge,
        is_empty: true,
        push_trailer: None,
        tree_oid: "0".repeat(40),
        parent_tree_oid: None,
        raw_object: Vec::new(),
    }
}

fn file(path: &str, operation: FileOperation, content: Option<&[u8]>) -> ParsedFile {
    ParsedFile {
        path: path.to_string(),
        operation,
        new_content: content.map(|c| c.to_vec()),
        old_content: None,
        diff_lines: None,
        old_path: None,
        new_mode: Some(0o100644),
        new_encoding: Encoding::Utf8,
        old_encoding: None,
    }
}

fn message_of(error: CliError) -> String {
    match error {
        CliError::GitError { message } => message,
        other => panic!("unexpected error {:?}", other),
    }
}

#[test]
fn test_classify_normal_commit() {
    let info = test_info("fix: typo in readme", false);
    assert!(matches!(classify_commit(&info), CommitClassification::Normal));
}

#[test]
fn test_classify_merge_commit() {
    let info = test_info("Merge branch 'feature' into main", true);
    assert!(matches!(classify_commit(&info), CommitClassification::Merge));
}

#[test]
fn test_classify_squash_with_atomic_trailer() {
    let msg = "feat: add login (#42)\n\nAtomic-Changes: ABC123, DEF456";
    let info = test_info(msg, false);
    match classify_commit(&info) {
        CommitClassification::Squash { original_hashes, pr_number } => {
            assert_eq!(original_hashes, vec!["ABC123", "DEF456"]);
            assert_eq!(pr_number, Some(42));
        }
        other => panic!("expected Squash, got {:?}", other),
    }
}

#[test]
fn test_classify_github_squash_format() {
    let msg = "Add feature (#99)\n\n* first commit\n* second commit";
    let info = test_info(msg, false);
    match classify_commit(&info) {
        CommitClassification::Squash { original_hashes, pr_number } => {
            assert!(original_hashes.is_empty());
            assert_eq!(pr_number, Some(99));
        }
        other => panic!("expected Squash, got {:?}", other),
    }
}

#[test]
fn test_classify_squash_collects_all_trailer_blocks() {
    let msg = "\
Materialize session view (#7)

* chore(atomic): materialize
Atomic-View: old-forest-591e
Atomic-State: S1
Atomic-Changes: FIRSTHASH

* chore(atomic): materialize
Atomic-View: calm-violet-8d7f
Atomic-State: S2
Atomic-Changes: SECONDHASH, THIRDHASH
";
    let info = test_info(msg, false);
    match classify_commit(&info) {
        CommitClassification::Squash { original_hashes, pr_number } => {
            assert_eq!(original_hashes, vec!["FIRSTHASH", "SECONDHASH", "THIRDHASH"]);
            assert_eq!(pr_number, Some(7));
        }
        other => panic!("expected Squash, got {:?}", other),
    }
}

#[test]
fn only_a_plain_commit_with_trailers_claims_originals() {
    let claim = squash_claim(&commit("feat (#3)", Some("Atomic-Changes: A, B"), false)).unwrap();
    assert_eq!(claim.original_hashes, vec!["A", "B"]);
    assert_eq!(claim.pr_number, Some(3));
    assert!(squash_claim(&commit("feat (#3)", Some("Atomic-Changes: A, B"), true)).is_none());
    assert!(squash_claim(&commit("feat (#3)", None, false)).is_none());
}

#[test]
fn a_claimed_squash_is_classified_by_the_same_originals() {
    let parsed = commit("feat (#3)", Some("Atomic-Changes: A, B"), false);
    let claim = squash_claim(&parsed).unwrap();
    match classify_commit(&written_info(&parsed, hash(1))) {
        CommitClassification::Squash { original_hashes, pr_number } => {
            assert_eq!(original_hashes, claim.original_hashes);
            assert_eq!(pr_number, claim.pr_number);
        }
        other => panic!("expected Squash, got {:?}", other),
    }
}

#[test]
fn a_missing_original_is_named() {
    let squash = SquashInsert {
        original_hashes: vec!["A".to_string(), "B".to_string()],
        pr_number: None,
    };
    let all = resolve_originals("aabbccdd", &squash, &vec![Some(hash(1)), Some(hash(2))]);
    assert_eq!(all.unwrap(), vec![hash(1), hash(2)]);
    let missing = resolve_originals("aabbccdd", &squash, &vec![Some(hash(1)), None]);
    assert_eq!(
        missing.unwrap_err(),
        "Squash aabbccdd references change B which is not present locally; skipping (run `atomic pull` to fetch it, then re-import)."
    );
}

#[test]
fn an_insertion_must_reproduce_every_touched_path() {
    let files = vec![
        file("a", FileOperation::Modified, Some(b"new\n")),
        file("b", FileOperation::Deleted, None),
        file("c", FileOperation::Modified, None),
    ];
    let good = vec![Some(b"new\n".to_vec()), None, Some(b"anything".to_vec())];
    assert!(squash_insert_matches_tree(&files, &good));
    let emptied = vec![Some(b"new\n".to_vec()), Some(Vec::new()), None];
    assert!(squash_insert_matches_tree(&files, &emptied));
    let diverged = vec![Some(b"old\n".to_vec()), None, None];
    assert!(!squash_insert_matches_tree(&files, &diverged));
    let absent = vec![None, None, None];
    assert!(!squash_insert_matches_tree(&files, &absent));
    let kept = vec![Some(b"new\n".to_vec()), Some(b"x".to_vec()), None];
    assert!(!squash_insert_matches_tree(&files, &kept));
}

#[test]
fn a_rollback_takes_the_newest_first() {
    assert_eq!(
        rollback_order(&vec![hash(1), hash(2), hash(3)]),
        vec![hash(3), hash(2), hash(1)]
    );
    // Taking back in that order leaves a view as it was.
    let mut view = vec![hash(9), hash(1), hash(2), hash(3)];
    for h in rollback_order(&vec![hash(1), hash(2), hash(3)]) {
        assert_eq!(view.pop(), Some(h));
    }
    assert_eq!(view, vec![hash(9)]);
}

#[test]
fn an_inserted_squash_is_anchored_to_its_last_original() {
    let parsed = commit("feat (#3)", Some("Atomic-Changes: A, B"), false);
    let info = squash_info(&parsed, squash_claim(&parsed).unwrap(), &vec![hash(1), hash(2)]);
    assert_eq!(info.atomic_hash, hash(2));
    assert!(!info.is_merge);
    assert_eq!(info.message, "feat (#3)\n\nAtomic-Changes: A, B");
    assert_eq!(info.squash_insert.unwrap().original_hashes, vec!["A", "B"]);
    let none = squash_info(&parsed, squash_claim(&parsed).unwrap(), &vec![]);
    assert_eq!(none.atomic_hash, hash(0));
}

#[test]
fn a_failed_binding_is_never_written_over() {
    assert!(verified_binding_for("abc", &BindingResolution::Verified).unwrap());
    assert!(!verified_binding_for("abc", &BindingResolution::Cold).unwrap());
    let error = verified_binding_for(
        "abc",
        &BindingResolution::Unresolved { detail: "bad signature".to_string() },
    )
    .unwrap_err();
    assert_eq!(
        message_of(error),
        "a stored binding claims commit abc but failed verification; refusing to synthesize over a known binding claim (recoverable rejection): bad signature"
    );
}

#[test]
fn a_restored_commit_becomes_its_last_change() {
    let parsed = commit("feat", None, true);
    let mut outcome = Resurrection {
        binding_id: "bind-1".to_string(),
        inserted: vec![hash(1), hash(2)],
        already_present: vec![hash(3)],
        restored_raw_commit: true,
        tree_verified: true,
    };
    assert_eq!(restored_closure(&outcome), vec![hash(1), hash(2), hash(3)]);
    let info = resurrected_info(&parsed, &outcome).unwrap();
    assert_eq!(info.atomic_hash, hash(2));
    assert!(!info.is_merge);
    assert_eq!(
        resurrection_notice("aabbccdd", &outcome),
        "Resurrected verified binding for aabbccdd (2 change(s) restored, 1 already present, raw commit restored), tree proof verified"
    );
    outcome.inserted = Vec::new();
    outcome.restored_raw_commit = false;
    outcome.tree_verified = false;
    assert_eq!(resurrected_info(&parsed, &outcome).unwrap().atomic_hash, hash(3));
    assert_eq!(
        resurrection_notice("aabbccdd", &outcome),
        "Resurrected verified binding for aabbccdd (0 change(s) restored, 1 already present), tree proof MISMATCH"
    );
    outcome.already_present = Vec::new();
    assert_eq!(
        message_of(resurrected_info(&parsed, &outcome).unwrap_err()),
        "binding bind-1 for aabbccdd11223344 carries no changes to resurrect"
    );
}

#[test]
fn merges_and_squashes_are_tagged_for_review() {
    let merge = review_tag(&test_info("Merge branch 'x'", true)).unwrap();
    assert_eq!(merge.name, "merge-aabbccdd");
    assert_eq!(merge.message, "Merge commit aabbccdd");
    assert_eq!(merge.strategy, MergeStrategy::Merge);
    let squash = review_tag(&test_info("feat\n\nAtomic-Changes: A", false)).unwrap();
    assert_eq!(squash.name, "squash-aabbccdd");
    assert_eq!(squash.message, "Squash merge aabbccdd");
    assert_eq!(squash.original_hashes, vec!["A"]);
    assert!(!squash.inserted);
    let numbered = review_tag(&test_info("feat (#12)\n\nAtomic-Changes: A", false)).unwrap();
    assert_eq!(numbered.name, "pr-12");
    assert_eq!(numbered.pr_number, Some(12));
    let mut inserted = test_info("fix: typo", false);
    inserted.squash_insert =
        Some(SquashInsert { original_hashes: vec!["X".to_string()], pr_number: Some(5) });
    let tag = review_tag(&inserted).unwrap();
    assert_eq!(tag.name, "pr-5");
    assert_eq!(tag.message, "Squash merge aabbccdd (inserted)");
    assert!(tag.inserted);
    assert!(review_tag(&test_info("fix: typo", false)).is_none());
}

#[test]
fn every_imported_commit_is_told_apart() {
    let imported = vec![
        test_info("fix: typo", false),
        test_info("Merge branch 'x'", true),
        test_info("feat\n\nAtomic-Changes: A", false),
        test_info("chore", false),
    ];
    let (tags, stats) = classify_and_tag_imports(&imported);
    assert_eq!((stats.normal, stats.merges, stats.squashes), (2, 1, 1));
    assert!(tags[0].is_none() && tags[3].is_none());
    assert_eq!(tags[1].as_ref().unwrap().name, "merge-aabbccdd");
    assert_eq!(tags[2].as_ref().unwrap().name, "squash-aabbccdd");
}

#[test]
fn a_forecast_knows_which_originals_are_there() {
    let squash = "feat (#8)\n\nAtomic-Changes: A, B";
    assert_eq!(forecast_commit_kind("x", true, |_: &str| true), ForecastKind::Merge);
    assert_eq!(forecast_commit_kind("x", false, |_: &str| true), ForecastKind::Normal);
    assert_eq!(
        forecast_commit_kind(squash, false, |_: &str| true),
        ForecastKind::SquashInsertable { count: 2, pr: Some(8) }
    );
    assert_eq!(
        forecast_commit_kind(squash, false, |h: &str| h == "A"),
        ForecastKind::SquashRecordsMissing { count: 2 }
    );
}
