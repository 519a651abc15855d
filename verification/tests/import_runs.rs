use atomic_git::claims::{ClaimProof, ClaimedRoot, VerifiedImportCommit, WorktreeCheck};
use atomic_git::commit::{CommitMetadata, FileOperation, ParsedCommit, ParsedFile};
use atomic_git::error::CliError;
use atomic_git::graph::{ContentHash, Encoding};
use atomic_git::history::{ClosureObservation, GitClosureBoundary};
use atomic_git::import::{CommitOutcome, ParallelImportOptions, ParallelImporter};
use atomic_git::import_run::{ImportAction, ImportRun, ImportStage, SquashDecision};
use atomic_git::merge::ParentClosure;
use atomic_git::message::{Merkle, PushTrailer};
use atomic_git::oid::{tagged_oid_from_hex, tagged_oid_hex, GitObjectId};
use atomic_git::preflight_run::{ClaimVerdict, PreflightAction, PreflightRun, PreflightStage};
use atomic_git::push::GitHashAlgorithm;
use atomic_git::recording::KeptKind;
use atomic_git::resolution_run::{ResolutionAction, ResolutionRun, ResolutionStage};
use atomic_git::sequence::CommitNode;
use atomic_git::squash::{BindingResolution, Resurrection};
use atomic_git::squash_run::{SquashAction, SquashRun, SquashStage};
use atomic_git::tree::{InodeKind, ObjectKind, PathVerdict, RepositoryEntry, TreeEntry};

const COMMIT: &str = "00112233445566778899aabbccddeeff00112233";
const TREE: &str = "4b825dc642cb6eb9a060e54bf8d69288fbee4904";
const PARENT: &str = "ffeeddccbbaa99887766554433221100ffeeddcc";
const OTHER: &str = "aaeeddccbbaa99887766554433221100ffeeddcc";

fn hash(n: u128) -> ContentHash {
    ContentHash { hi: n, lo: 0 }
}

fn file(path: &str, operation: FileOperation, content: Option<&[u8]>) -> ParsedFile {
    ParsedFile {
        path: path.to_string(),
        operation,
        new_content: content.map(|c| c.to_vec()),
        old_content: None,
        diff_lines: None,
        old_path: None,
        new_mode: Some(0o100644),
        new_encoding: Encoding::Utf8,
        old_encoding: None,
    }
}

fn commit(sha: &str, message: &str, parents: &[&str], files: Vec<ParsedFile>) -> ParsedCommit {
    ParsedCommit {
        git_sha: sha.to_string(),
        short_sha: sha.chars().take(8).collect(),
        metadata: CommitMetadata {
            author_name: "Ann".to_string(),
            author_email: None,
            author_name_raw: b"Ann".to_vec(),
            author_email_raw: None,
            timestamp: 0,
            message: message.to_string(),
            description: None,
            author_time: 0,
            author_time_offset_seconds: 0,
            committer_name: "Bob".to_string(),
            committer_email: None,
            committer_name_raw: b"Bob".to_vec(),
            committer_email_raw: None,
            committer_time: 1,
            committer_time_offset_seconds: 0,
        },
        is_empty: files.is_empty(),
        files,
        parent_index: None,
        parent_oids: parents.iter().map(|p| p.to_string()).collect(),
        committer_time: 1,
        is_merge: parents.len() > 1,
        push_trailer: None,
        tree_oid: TREE.to_string(),
        parent_tree_oid: None,
        raw_object: Vec::new(),
    }
}

fn git_message(error: CliError) -> String {
    match error {
        CliError::GitError { message } => message,
        other => panic!("expected a Git error, got {:?}", other),
    }
}

fn internal_message(error: CliError) -> String {
    match error {
        CliError::Internal { message } => message,
        other => panic!("expected an internal error, got {:?}", other),
    }
}

fn parents_known() -> Vec<ParentClosure> {
    vec![
        ParentClosure {
            sha: PARENT.to_string(),
            change: Some(hash(2)),
            closure: vec![hash(2), hash(1)],
        },
        ParentClosure {
            sha: OTHER.to_string(),
            change: Some(hash(3)),
            closure: vec![hash(3), hash(1)],
        },
    ]
}

fn resolution_failure(action: ResolutionAction) -> CliError {
    match action {
        ResolutionAction::Fail { error } => error,
        other => panic!("expected a failure, got {:?}", other),
    }
}

#[test]
fn a_merge_is_led_to_its_own_tree() {
    let merge = commit(
        COMMIT,
        "Merge",
        &[PARENT, OTHER],
        vec![
            file("same", FileOperation::Modified, Some(b"s\n")),
            file("both", FileOperation::Modified, Some(b"resolved\n")),
            file("new", FileOperation::Added, Some(b"n\n")),
            file("gone", FileOperation::Deleted, None),
            file("never", FileOperation::Deleted, None),
        ],
    );
    let (mut run, first) = ResolutionRun::begin(&merge, false);
    assert!(matches!(first, ResolutionAction::ReadParents));
    // The closures of other commits are not taken for the parents'.
    let mut swapped = parents_known();
    swapped.reverse();
    assert!(matches!(run.parents_read(&swapped), ResolutionAction::OutOfTurn));
    assert!(matches!(run.parents_read(&vec![]), ResolutionAction::OutOfTurn));
    match run.parents_read(&parents_known()) {
        ResolutionAction::EnsureUnion { closure } => {
            assert_eq!(closure, vec![hash(1), hash(2), hash(3)])
        }
        other => panic!("unexpected {:?}", other),
    }
    assert!(matches!(run.union_ensured(), ResolutionAction::ReadBaselines));
    assert_eq!(tagged_oid_hex(&run.origin.as_ref().unwrap().commit), COMMIT);
    let held: Vec<Option<Vec<u8>>> = vec![
        Some(b"s\n".to_vec()),
        Some(b"a\nb\n".to_vec()),
        None,
        Some(b"g\n".to_vec()),
        None,
    ];
    assert!(matches!(run.baselines_read(&vec![]), ResolutionAction::OutOfTurn));
    assert!(matches!(
        run.baselines_read(&held),
        ResolutionAction::Register { paths } if paths == vec!["new"]
    ));
    assert!(matches!(
        run.registered(),
        ResolutionAction::ReadBaseline { path } if path == "same"
    ));
    assert!(matches!(
        run.baseline_read(held[0].clone()),
        ResolutionAction::ReadBaseline { path } if path == "both"
    ));
    assert!(matches!(
        run.baseline_read(held[1].clone()),
        ResolutionAction::Resolve { path, content } if path == "both" && content == b"resolved\n"
    ));
    run.recorded(false);
    assert!(matches!(
        run.baseline_read(held[2].clone()),
        ResolutionAction::Add { path, content } if path == "new" && content == b"n\n"
    ));
    run.recorded(false);
    assert!(matches!(
        run.baseline_read(held[3].clone()),
        ResolutionAction::Bind { path } if path == "gone"
    ));
    assert!(matches!(run.bound(true), ResolutionAction::Delete { path } if path == "gone"));
    run.recorded(false);
    assert!(matches!(run.baseline_read(None), ResolutionAction::Publish));
    let kept: Vec<(usize, KeptKind)> = run.records.iter().map(|k| (k.file, k.kind)).collect();
    assert_eq!(
        kept,
        vec![(1, KeptKind::Content), (2, KeptKind::Content), (3, KeptKind::Deletion)]
    );
    assert!(matches!(
        run.published(),
        ResolutionAction::Unindex { paths } if paths == vec!["gone"]
    ));
    assert!(matches!(run.unindexed(), ResolutionAction::Finish));
    assert!(matches!(run.published(), ResolutionAction::OutOfTurn));
    assert_eq!(run.stage, ResolutionStage::Done);
}

#[test]
fn a_merge_without_its_parents_is_refused() {
    let merge = commit(COMMIT, "Merge", &[PARENT, OTHER], vec![]);
    let (mut run, _) = ResolutionRun::begin(&merge, true);
    let mut parents = parents_known();
    parents[1].change = None;
    assert!(git_message(resolution_failure(run.parents_read(&parents)))
        .contains(&format!("merge {} parent {} has no locally verified", COMMIT, OTHER)));
    let (mut run, _) = ResolutionRun::begin(&merge, true);
    for p in parents.iter_mut() {
        p.change = Some(hash(1));
        p.closure.clear();
    }
    assert!(git_message(resolution_failure(run.parents_read(&parents)))
        .contains("parent closures cannot be reconstructed locally"));
    // Ids that name no object.
    let odd = commit("zz", "Merge", &[PARENT, OTHER], vec![]);
    let (mut run, _) = ResolutionRun::begin(&odd, true);
    run.parents_read(&parents_known());
    resolution_failure(run.union_ensured());
    assert_eq!(run.stage, ResolutionStage::Done);
    // Nothing to do leads straight to the publication.
    let (mut run, _) = ResolutionRun::begin(&merge, true);
    run.parents_read(&parents_known());
    run.union_ensured();
    assert!(matches!(run.baselines_read(&vec![]), ResolutionAction::Publish));
    assert!(matches!(run.published(), ResolutionAction::Finish));
    let (mut run, _) = ResolutionRun::begin(&merge, true);
    let failed = run.failed(CliError::Internal { message: "x".to_string() });
    assert_eq!(internal_message(resolution_failure(failed)), "x");
}

#[test]
fn a_merge_must_not_record_nothing() {
    let merge = commit(
        COMMIT,
        "Merge",
        &[PARENT, OTHER],
        vec![file("a", FileOperation::Modified, Some(b"m\n"))],
    );
    let gone = commit(
        COMMIT,
        "Merge",
        &[PARENT, OTHER],
        vec![file("a", FileOperation::Deleted, None)],
    );
    let reach = |c| {
        let (mut run, _) = ResolutionRun::begin(c, true);
        run.parents_read(&parents_known());
        run.union_ensured();
        run.baselines_read(&vec![None]);
        run
    };
    let mut run = reach(&merge);
    run.baseline_read(Some(b"u\n".to_vec()));
    assert_eq!(
        internal_message(resolution_failure(run.recorded(true))),
        "cannot record merge resolution for 'a': record is empty"
    );
    let mut run = reach(&merge);
    run.baseline_read(None);
    assert_eq!(
        internal_message(resolution_failure(run.recorded(true))),
        "cannot record merge addition 'a': record is empty"
    );
    let mut run = reach(&gone);
    run.baseline_read(Some(b"u\n".to_vec()));
    assert_eq!(
        git_message(resolution_failure(run.bound(false))),
        "cannot import merge deletion 'a': no stable inode binding"
    );
    let mut run = reach(&gone);
    run.baseline_read(Some(b"u\n".to_vec()));
    run.bound(true);
    assert_eq!(
        internal_message(resolution_failure(run.recorded(true))),
        "cannot import merge deletion 'a': canonical FileDel is empty"
    );
}

fn squashed() -> ParsedCommit {
    commit(
        COMMIT,
        "Squash (#7)\n\nAtomic-Changes: H1\nAtomic-Changes: H2\n",
        &[PARENT],
        vec![file("a", FileOperation::Modified, Some(b"a\n"))],
    )
}

#[test]
fn originals_stand_for_a_squash() {
    let c = squashed();
    let (mut run, first) = SquashRun::begin(&c);
    assert!(matches!(
        first,
        SquashAction::FindOriginals { hashes } if hashes == vec!["H1", "H2"]
    ));
    assert!(matches!(run.originals_found(&vec![]), SquashAction::OutOfTurn));
    assert!(matches!(
        run.originals_found(&vec![Some(hash(1)), Some(hash(2))]),
        SquashAction::Insert { change } if change == hash(1)
    ));
    assert!(matches!(
        run.inserted(&vec![hash(9), hash(1)]),
        SquashAction::Insert { change } if change == hash(2)
    ));
    assert!(matches!(run.inserted(&vec![hash(2)]), SquashAction::ReadHeld));
    match run.held_read(&vec![Some(b"a\n".to_vec())]) {
        SquashAction::Anchor { tip, closure } => {
            assert_eq!(tip, Some(hash(2)));
            assert_eq!(closure, vec![hash(1), hash(2)]);
        }
        other => panic!("unexpected {:?}", other),
    }
    match run.anchored(Some("disk full")) {
        SquashAction::Inserted { info, warning } => {
            assert_eq!(info.atomic_hash, hash(2));
            assert_eq!(info.git_sha, COMMIT);
            let squash = info.squash_insert.unwrap();
            assert_eq!(squash.original_hashes, vec!["H1", "H2"]);
            assert_eq!(squash.pr_number, Some(7));
            assert_eq!(
                warning.unwrap(),
                "Squash 00112233: could not persist its interpretation closure (disk full); \
                 later incremental imports may refuse descendants of it."
            );
        }
        other => panic!("unexpected {:?}", other),
    }
    assert_eq!(run.stage, SquashStage::Done);
}

#[test]
fn a_squash_that_is_left_out_is_taken_back() {
    let c = squashed();
    // A diverging tree.
    let (mut run, _) = SquashRun::begin(&c);
    run.originals_found(&vec![Some(hash(1)), Some(hash(2))]);
    run.inserted(&vec![hash(9), hash(1)]);
    run.inserted(&vec![hash(2)]);
    match run.held_read(&vec![Some(b"b\n".to_vec())]) {
        SquashAction::TakeBack { warning, changes } => {
            assert_eq!(changes, vec![hash(2), hash(1), hash(9)]);
            assert!(warning.contains("diverges from the git tree"));
        }
        other => panic!("unexpected {:?}", other),
    }
    assert!(matches!(run.taken_back(), SquashAction::Skipped { warning: None }));
    // An original that cannot be inserted.
    let (mut run, _) = SquashRun::begin(&c);
    run.originals_found(&vec![Some(hash(1)), Some(hash(2))]);
    run.inserted(&vec![hash(1)]);
    match run.insertion_failed("ABCDEFGHIJKLMNOP", "conflict") {
        SquashAction::TakeBack { warning, changes } => {
            assert_eq!(changes, vec![hash(1)]);
            assert_eq!(
                warning,
                "Squash 00112233: failed to insert original ABCDEFGHIJKL: conflict; skipping."
            );
        }
        other => panic!("unexpected {:?}", other),
    }
    // An original that is missing.
    let (mut run, _) = SquashRun::begin(&c);
    assert!(matches!(
        run.originals_found(&vec![Some(hash(1)), None]),
        SquashAction::Skipped { warning: Some(w) }
            if w.contains("references change H2 which is not present locally")
    ));
    assert!(run.applied.is_empty());
    // No originals at all.
    let plain = commit(COMMIT, "Plain", &[PARENT], vec![]);
    let (run, first) = SquashRun::begin(&plain);
    assert!(matches!(first, SquashAction::NotSquash));
    assert_eq!(run.stage, SquashStage::Done);
}

fn verified(parsed: ParsedCommit) -> VerifiedImportCommit {
    VerifiedImportCommit {
        parsed,
        expected_tree_oid: tagged_oid_from_hex(TREE).unwrap(),
        raw_tree_oid: tagged_oid_from_hex(TREE).unwrap(),
    }
}

fn importer(incremental: bool) -> ParallelImporter {
    ParallelImporter::new(
        "/repo/.git".to_string(),
        ParallelImportOptions {
            incremental,
            target_view: "dev".to_string(),
            known_states: vec![Merkle { hi: 5, lo: 0 }],
            ..ParallelImportOptions::default()
        },
    )
}

fn pushed_from_here(sha: &str) -> ParsedCommit {
    let mut c = commit(sha, "Pushed", &[PARENT], vec![]);
    c.push_trailer = Some(PushTrailer {
        view: "dev".to_string(),
        state: Merkle { hi: 5, lo: 0 },
        changes: Vec::new(),
    });
    c
}

#[test]
fn every_commit_of_an_import_is_taken_up_once() {
    let importer = importer(true);
    let commits = vec![
        verified(pushed_from_here("c0")),
        verified(squashed()),
        verified(commit("c2", "Plain", &[PARENT], vec![
            file("dir\\x", FileOperation::Added, Some(b"x")),
            file("gone", FileOperation::Deleted, None),
        ])),
        verified(commit("c3", "Restored", &[PARENT], vec![
            file("y", FileOperation::Added, Some(b"y")),
        ])),
        verified(commit("c4", "Empty", &[PARENT], vec![])),
        verified(commit("c5", "Merge", &[PARENT, OTHER], vec![])),
        verified(pushed_from_here("c6")),
    ];
    let (mut run, first) = ImportRun::begin(&importer, &commits, "import-1".to_string());
    // What was pushed from here is skipped.
    assert!(matches!(first, ImportAction::TrySquashInsert { commit: 1 }));
    assert!(matches!(run.commit_written(hash(1)), ImportAction::OutOfTurn));
    assert!(matches!(
        run.squash_decided(SquashDecision::Skipped),
        ImportAction::TrySquashInsert { commit: 2 }
    ));
    assert!(matches!(
        run.squash_decided(SquashDecision::NotSquash),
        ImportAction::FindBinding { commit: 2 }
    ));
    assert!(matches!(
        run.binding_resolved(&BindingResolution::Cold),
        ImportAction::Write { commit: 2, report: false }
    ));
    assert!(matches!(run.commit_written(hash(2)), ImportAction::TrySquashInsert { commit: 3 }));
    run.squash_decided(SquashDecision::NotSquash);
    assert!(matches!(
        run.binding_resolved(&BindingResolution::Verified),
        ImportAction::Resurrect { commit: 3 }
    ));
    let restored = Resurrection {
        binding_id: "B".to_string(),
        inserted: vec![hash(30), hash(31)],
        already_present: vec![],
        restored_raw_commit: true,
        tree_verified: true,
    };
    assert!(matches!(run.resurrected(&restored), ImportAction::TrySquashInsert { commit: 4 }));
    for change in [4, 5] {
        run.squash_decided(SquashDecision::NotSquash);
        run.binding_resolved(&BindingResolution::Cold);
        let next = run.commit_written(hash(change));
        if change == 5 {
            // The last commit is skipped, too.
            match next {
                ImportAction::IndexFiles { paths } => {
                    assert_eq!(paths, vec!["a", "dir/x", "y"])
                }
                other => panic!("unexpected {:?}", other),
            }
        }
    }
    assert_eq!(
        run.outcomes,
        vec![
            CommitOutcome::SelfPushSkipped,
            CommitOutcome::SquashSkipped,
            CommitOutcome::ChangeWritten,
            CommitOutcome::Resurrected,
            CommitOutcome::EmptyWritten,
            CommitOutcome::MergeWritten,
            CommitOutcome::SelfPushSkipped,
        ]
    );
    assert_eq!(run.imported.len(), 4);
    assert_eq!(run.imported[1].atomic_hash, hash(31));
    assert!(run.imported[3].is_merge);
    assert!(matches!(run.files_indexed(), ImportAction::Classify));
    assert!(matches!(run.classified(), ImportAction::Finish));
    assert_eq!(run.stage, ImportStage::Done);
    assert!(run.imported.iter().all(|i| i.squash_insert.is_none()));
    assert!(!run.imported[1].is_merge);
    assert_eq!(run.stats.commits_parsed, 7);
    assert_eq!(run.stats.changes_written, 2);
    assert_eq!(run.stats.resurrected_exact, 1);
    assert_eq!(run.stats.self_push_skipped, 2);
    assert_eq!(run.stats.squash_skipped, 1);
    assert_eq!(run.stats.files_processed, 3);
    assert_eq!(
        run.notice().unwrap(),
        "Skipped 2 commits created by `atomic git push` (state already in view)"
    );
}

#[test]
fn a_squash_is_decided_for_its_own_commit() {
    let importer = importer(true);
    let commits = vec![verified(squashed()), verified(commit("c1", "Plain", &[PARENT], vec![]))];
    let info = |parsed: &ParsedCommit| {
        let (mut run, _) = SquashRun::begin(parsed);
        run.originals_found(&vec![Some(hash(1)), Some(hash(2))]);
        run.inserted(&vec![hash(1)]);
        run.inserted(&vec![hash(2)]);
        run.held_read(&vec![Some(b"a\n".to_vec())]);
        match run.anchored(None) {
            SquashAction::Inserted { info, .. } => info,
            other => panic!("unexpected {:?}", other),
        }
    };
    let (mut run, _) = ImportRun::begin(&importer, &commits, String::new());
    // A commit that names originals is a squash, and the originals stand for
    // no other one.
    assert!(matches!(
        run.squash_decided(SquashDecision::NotSquash),
        ImportAction::OutOfTurn
    ));
    let mut other = squashed();
    other.git_sha = PARENT.to_string();
    assert!(matches!(
        run.squash_decided(SquashDecision::Inserted(info(&other))),
        ImportAction::OutOfTurn
    ));
    assert!(matches!(
        run.squash_decided(SquashDecision::Inserted(info(&commits[0].parsed))),
        ImportAction::TrySquashInsert { commit: 1 }
    ));
    assert_eq!(run.imported.last().unwrap().atomic_hash, hash(2));
    assert!(run.imported.last().unwrap().squash_insert.is_some());
    // One that names none is not left out for them.
    assert!(matches!(run.squash_decided(SquashDecision::Skipped), ImportAction::OutOfTurn));
    run.squash_decided(SquashDecision::NotSquash);
    run.binding_resolved(&BindingResolution::Cold);
    run.commit_written(hash(3));
    run.files_indexed();
    assert_eq!(run.stats.squash_inserted, 1);
}

#[test]
fn a_failed_commit_stops_the_import_but_keeps_what_landed() {
    let importer = importer(false);
    let commits = vec![
        verified(commit("c0", "One", &[], vec![file("a", FileOperation::Added, Some(b"a"))])),
        verified(commit("c1", "Two", &["c0"], vec![file("b", FileOperation::Added, Some(b"b"))])),
        verified(commit("c2", "Three", &["c1"], vec![])),
    ];
    let (mut run, first) = ImportRun::begin(&importer, &commits, String::new());
    assert!(matches!(first, ImportAction::FindBinding { commit: 0 }));
    run.binding_resolved(&BindingResolution::Cold);
    run.commit_written(hash(1));
    run.binding_resolved(&BindingResolution::Cold);
    assert!(matches!(
        run.write_failed("disk full".to_string()),
        ImportAction::IndexFiles { .. }
    ));
    match run.files_indexed() {
        ImportAction::Fail { landed, error } => {
            assert_eq!(landed, Some(1));
            assert_eq!(
                internal_message(error),
                "partial import failed after 1 landed commit(s): disk full"
            );
        }
        other => panic!("unexpected {:?}", other),
    }
    assert_eq!(run.stage, ImportStage::Failed);
    // What became of the commits that landed is not counted any more.
    assert_eq!(run.stats.self_push_skipped, 0);
    assert_eq!(run.stats.squash_skipped, 0);
    assert!(matches!(
        run.failed(CliError::Internal { message: "late".to_string() }),
        ImportAction::OutOfTurn
    ));

    // A binding that failed verification is never written over.
    let (mut run, _) = ImportRun::begin(&importer, &commits, String::new());
    match run.binding_resolved(&BindingResolution::Unresolved { detail: "bad".to_string() }) {
        ImportAction::Fail { landed: None, error } => assert!(git_message(error)
            .starts_with("a stored binding claims commit c0 but failed verification")),
        other => panic!("unexpected {:?}", other),
    }
    // Nor is one without changes restored.
    let (mut run, _) = ImportRun::begin(&importer, &commits, String::new());
    run.binding_resolved(&BindingResolution::Verified);
    let nothing = Resurrection {
        binding_id: "B".to_string(),
        inserted: vec![],
        already_present: vec![],
        restored_raw_commit: false,
        tree_verified: false,
    };
    match run.resurrected(&nothing) {
        ImportAction::Fail { landed: None, error } => assert_eq!(
            git_message(error),
            "binding B for c0 carries no changes to resurrect"
        ),
        other => panic!("unexpected {:?}", other),
    }
    let none = vec![];
    let (run, first) = ImportRun::begin(&importer, &none, String::new());
    assert!(matches!(first, ImportAction::Finish));
    assert_eq!(run.stats.commits_parsed, 0);
}

#[test]
fn the_options_decide_what_becomes_of_the_working_copy() {
    for (proved, preserve) in [(true, false), (false, true), (false, false)] {
        let mut importer = importer(false);
        importer.options.validate_equivalence = proved;
        importer.options.preserve_working_copy = preserve;
        let commits = vec![verified(commit("c0", "One", &[], vec![]))];
        let (mut run, _) = ImportRun::begin(&importer, &commits, String::new());
        run.binding_resolved(&BindingResolution::Cold);
        run.commit_written(hash(1));
        match run.files_indexed() {
            ImportAction::Finish => assert!(proved),
            ImportAction::DropStaleCache => {
                assert!(!proved && preserve);
                assert!(matches!(run.cleaned_up(), ImportAction::Finish));
            }
            ImportAction::Reconcile => {
                assert!(!proved && !preserve);
                assert!(matches!(run.cleaned_up(), ImportAction::Finish));
            }
            other => panic!("unexpected {:?}", other),
        }
    }
}

fn node(oid: &str, time: i64, parents: &[&str]) -> CommitNode {
    CommitNode {
        oid: oid.to_string(),
        committer_time: time,
        parents: parents.iter().map(|p| p.to_string()).collect(),
    }
}

fn readable(oid: &str, parents: &[&str]) -> ClosureObservation {
    ClosureObservation {
        oid: oid.to_string(),
        unreadable: None,
        parents: parents.iter().map(|p| (p.to_string(), true)).collect(),
        tree_readable: true,
    }
}

fn entry(mode: u32, kind: ObjectKind) -> TreeEntry {
    TreeEntry {
        name: b"a".to_vec(),
        display: "a".to_string(),
        kind,
        mode,
        oid: vec![0; 20],
        excluded: false,
        bytes: vec![],
        children: vec![],
    }
}

fn preflight_failure(action: PreflightAction) -> String {
    match action {
        PreflightAction::Fail { error } => git_message(error),
        other => panic!("expected a failure, got {:?}", other),
    }
}

/// A preflight of two commits up to the first one's application.
fn parsed_run<'a>(
    importer: &'a ParallelImporter,
    has_source: bool,
    first: ParsedCommit,
    second: ParsedCommit,
) -> PreflightRun<'a> {
    let (mut run, action) =
        PreflightRun::begin(importer, "dev".to_string(), has_source, GitHashAlgorithm::Sha1);
    assert!(matches!(action, PreflightAction::CollectHistory));
    // Collected newest first.
    let nodes = vec![node("c1", 2, &["c0"]), node("c0", 1, &[])];
    assert!(matches!(run.history_collected(nodes), PreflightAction::DetectBoundaries));
    match run.boundaries_detected(vec![GitClosureBoundary::Shallow, GitClosureBoundary::Grafts]) {
        PreflightAction::ReadObjects { warning, order } => {
            assert_eq!(
                warning.unwrap(),
                "Git closure boundary for branch 'dev': shallow, grafts"
            );
            assert_eq!(order, vec!["c0", "c1"]);
        }
        other => panic!("unexpected {:?}", other),
    }
    // What is behind other commits tells nothing of these.
    assert!(matches!(
        run.objects_read(&vec![readable("c0", &[])], &vec![]),
        PreflightAction::OutOfTurn
    ));
    let objects = vec![readable("c0", &[]), readable("c1", &["c0"])];
    assert!(matches!(
        run.objects_read(&objects, &vec![]),
        PreflightAction::ProjectCurrent
    ));
    assert!(matches!(
        run.current_projected(None),
        PreflightAction::ReadTree { oid } if oid == "c0"
    ));
    let tree = vec![entry(0o100644, ObjectKind::Blob)];
    assert!(matches!(
        run.tree_read(&tree),
        PreflightAction::ReadTree { oid } if oid == "c1"
    ));
    assert!(matches!(
        run.tree_read(&tree),
        PreflightAction::ParseCommits { order } if order == vec!["c0", "c1"]
    ));
    // A commit that was not asked for is not taken up.
    assert!(matches!(
        run.commits_parsed(vec![plain("c9", "a")]),
        PreflightAction::OutOfTurn
    ));
    // Parsed in any order.
    assert!(matches!(
        run.commits_parsed(vec![second, first]),
        PreflightAction::ApplyCommit { .. }
    ));
    assert_eq!(run.at_hand().unwrap().git_sha, "c0");
    run
}

/// Apply the commit at hand to the state that is known of its parent.
fn apply(
    run: &mut PreflightRun,
    entries: &Vec<TreeEntry>,
    root: GitObjectId,
    difference: &str,
) -> PreflightAction {
    let count = run.at_hand().unwrap().files.len();
    let next = run.parent_state_read(&None, &fine(count));
    assert!(matches!(next, PreflightAction::ProjectCommit), "{:?}", next);
    run.commit_applied(entries, root, difference)
}

fn fine(count: usize) -> Vec<PathVerdict> {
    (0..count)
        .map(|_| PathVerdict { invalid: None, old_invalid: None, excluded: false })
        .collect()
}

fn plain(sha: &str, path: &str) -> ParsedCommit {
    commit(sha, "Plain", &[], vec![file(path, FileOperation::Added, Some(b"x"))])
}

#[test]
fn a_plan_holds_only_verified_commits() {
    let importer = importer(false);
    let mut claimed = pushed_from_here("c1");
    claimed.files = vec![file("b", FileOperation::Deleted, None)];
    claimed.parent_tree_oid = Some(TREE.to_string());
    let mut run = parsed_run(&importer, true, plain("c0", "a"), claimed);
    let tree = tagged_oid_from_hex(TREE).unwrap();
    assert!(matches!(apply(&mut run, &vec![], tree, ""), PreflightAction::ApplyCommit { .. }));
    let tree = tagged_oid_from_hex(TREE).unwrap();
    assert!(matches!(apply(&mut run, &vec![], tree, ""), PreflightAction::VerifyState));
    let sound = ClaimProof { projection_error: None, equivalence_error: None };
    assert!(matches!(run.closure_projected(&None, &sound), PreflightAction::OutOfTurn));
    assert!(matches!(
        run.state_projected(&sound, &vec![]),
        PreflightAction::ReadHead
    ));
    assert_eq!(run.verdicts, vec![ClaimVerdict::Unclaimed, ClaimVerdict::Verified]);
    assert!(matches!(
        run.head_read(Some("dev"), true),
        PreflightAction::ReadPath { path, .. } if path == "a"
    ));
    assert!(matches!(
        run.path_read(true, &b"x".to_vec()),
        PreflightAction::ReadPath { path, check: WorktreeCheck::Absent } if path == "b"
    ));
    assert!(matches!(run.path_read(false, &vec![]), PreflightAction::Finish));
    let plan = run.into_plan().unwrap();
    assert_eq!(plan.commits.len(), 2);
    assert_eq!(plan.commits[0].parsed.git_sha, "c0");
    assert_eq!(tagged_oid_hex(&plan.commits[1].raw_tree_oid), TREE);
    assert_eq!(plan.boundaries.len(), 2);
}

#[test]
fn a_forged_claim_leaves_no_plan() {
    let importer = importer(false);
    let tree = || tagged_oid_from_hex(TREE).unwrap();
    // A state that cannot be projected, or is another.
    for (projection, equivalence, said) in [
        (Some("gone"), None, "commit c0 carries an unverifiable Atomic state: gone"),
        (None, Some("differs"), "commit c0 carries a forged Atomic state: differs"),
    ] {
        let mut run = parsed_run(&importer, true, pushed_from_here("c0"), plain("c1", "a"));
        apply(&mut run, &vec![], tree(), "");
        let bad = ClaimProof {
            projection_error: projection.map(|s: &str| s.to_string()),
            equivalence_error: equivalence.map(|s: &str| s.to_string()),
        };
        assert_eq!(preflight_failure(run.state_projected(&bad, &vec![])), said);
        assert_eq!(run.stage, PreflightStage::Failed);
        assert!(run.into_plan().is_none());
    }
    // A named change that is not there.
    let sound = ClaimProof { projection_error: None, equivalence_error: None };
    let mut naming = pushed_from_here("c0");
    naming.push_trailer.as_mut().unwrap().changes = vec!["H1".to_string()];
    let mut run = parsed_run(&importer, true, naming, plain("c1", "a"));
    apply(&mut run, &vec![], tree(), "");
    assert!(matches!(run.state_projected(&sound, &vec![]), PreflightAction::OutOfTurn));
    let missing = vec![ClaimedRoot {
        encoded: "H1".to_string(),
        decoded: true,
        load_error: Some("no".to_string()),
    }];
    assert_eq!(
        preflight_failure(run.state_projected(&sound, &missing)),
        "commit c0 references unavailable Atomic change H1: no"
    );
    // Without a store a state cannot be verified at all.
    let mut run = parsed_run(&importer, false, pushed_from_here("c0"), plain("c1", "a"));
    apply(&mut run, &vec![], tree(), "");
    assert_eq!(
        preflight_failure(run.state_projected(&sound, &vec![])),
        "commit c0 claims Atomic state but no Atomic repository exists"
    );
    // Changes without the headers of a projection.
    let mut bare = plain("c0", "a");
    bare.metadata.message = "Squash\n\nAtomic-Changes: H1\n".to_string();
    let mut run = parsed_run(&importer, true, bare, plain("c1", "a"));
    assert!(preflight_failure(apply(&mut run, &vec![], tree(), ""))
        .contains("claims Atomic provenance with a bare Atomic-Changes header"));
}

#[test]
fn a_commit_that_differs_from_its_tree_leaves_no_plan() {
    let importer = importer(false);
    let mut run = parsed_run(&importer, true, plain("c0", "a"), plain("c1", "a"));
    let tree = tagged_oid_from_hex(TREE).unwrap();
    assert_eq!(
        preflight_failure(apply(&mut run, &vec![entry(0o100644, ObjectKind::Blob)], tree, "git_tree missing 'b'")),
        "commit c0 failed prospective equivalence against the Git tree minus declared \
         exclusions: git_tree missing 'b'"
    );
    assert!(run.verdicts.is_empty());
    assert!(run.into_plan().is_none());
}

#[test]
fn a_tree_that_cannot_be_expected_leaves_no_plan() {
    let importer = importer(false);
    let mut run = parsed_run(&importer, true, plain("c0", "a"), plain("c1", "a"));
    let mut short = entry(0o100644, ObjectKind::Blob);
    short.oid = vec![1, 2, 3];
    let tree = tagged_oid_from_hex(TREE).unwrap();
    assert!(preflight_failure(apply(&mut run, &vec![short], tree, ""))
        .starts_with("Git tree entry OID is invalid: "));
    assert_eq!(run.stage, PreflightStage::Failed);
    assert!(run.verified.is_empty());
    assert_eq!(run.boundaries.len(), 2);
}

#[test]
fn planned_commits_keep_the_tree_that_their_files_make_up() {
    let importer = importer(false);
    let mut run = parsed_run(&importer, true, plain("c0", "a"), plain("c1", "a"));
    apply(&mut run, &vec![], tagged_oid_from_hex(TREE).unwrap(), "");
    apply(&mut run, &vec![], tagged_oid_from_hex(TREE).unwrap(), "");
    for k in 0..2 {
        assert_eq!(tagged_oid_hex(&run.roots[k]), TREE);
        assert_eq!(tagged_oid_hex(&run.verified[k].expected_tree_oid), TREE);
    }
    assert!(run.expected.is_none() && run.root.is_none());
    assert!(matches!(run.head_read(None, true), PreflightAction::Finish));
    let plan = run.into_plan().unwrap();
    assert_eq!(plan.boundaries, vec![GitClosureBoundary::Shallow, GitClosureBoundary::Grafts]);
}

#[test]
fn a_claimed_closure_is_projected() {
    let importer = importer(false);
    let claiming = || {
        let mut c = plain("c0", "a");
        c.metadata.message =
            "Record\n\nAtomic-View: dev\nAtomic-State: S\nAtomic-Changes: H1\n".to_string();
        c
    };
    let tree = || tagged_oid_from_hex(TREE).unwrap();
    let sound = ClaimProof { projection_error: None, equivalence_error: None };
    let mut run = parsed_run(&importer, true, claiming(), plain("c1", "a"));
    assert!(matches!(
        apply(&mut run, &vec![], tree(), ""),
        PreflightAction::VerifyClosure { changes } if changes == vec!["H1"]
    ));
    let roots = Some(vec![ClaimedRoot {
        encoded: "H1".to_string(),
        decoded: true,
        load_error: None,
    }]);
    assert!(matches!(
        run.closure_projected(&roots, &sound),
        PreflightAction::ApplyCommit { .. }
    ));
    assert_eq!(run.verdicts, vec![ClaimVerdict::Verified]);
    let mut run = parsed_run(&importer, true, claiming(), plain("c1", "a"));
    apply(&mut run, &vec![], tree(), "");
    let other = Some(vec![ClaimedRoot {
        encoded: "H2".to_string(),
        decoded: true,
        load_error: None,
    }]);
    assert!(matches!(run.closure_projected(&other, &sound), PreflightAction::OutOfTurn));
    let odd = Some(vec![ClaimedRoot {
        encoded: "H1".to_string(),
        decoded: false,
        load_error: None,
    }]);
    assert_eq!(
        preflight_failure(run.closure_projected(&odd, &sound)),
        "commit c0 carries invalid Atomic-Changes value 'H1'"
    );
    // Without a store it is noted, not verified.
    let mut run = parsed_run(&importer, false, claiming(), plain("c1", "a"));
    assert!(matches!(apply(&mut run, &vec![], tree(), ""), PreflightAction::ApplyCommit { .. }));
    assert_eq!(run.verdicts, vec![ClaimVerdict::Unverifiable]);
}

fn begin(importer: &ParallelImporter) -> PreflightRun<'_> {
    PreflightRun::begin(importer, "dev".to_string(), true, GitHashAlgorithm::Sha1).0
}

#[test]
fn a_history_is_held_against_its_objects() {
    let plain_importer = importer(false);
    // A cycle has no order.
    let mut run = begin(&plain_importer);
    run.history_collected(vec![node("c0", 1, &["c1"]), node("c1", 2, &["c0"])]);
    assert!(preflight_failure(run.boundaries_detected(vec![]))
        .contains("bridge sequencing could not order all collected commits (0 of 2)"));
    // A missing parent is a gap, unless its child is shallow.
    for (shallow, gap) in [(vec![], true), (vec!["c0".to_string()], false)] {
        let mut run = begin(&plain_importer);
        run.history_collected(vec![node("c0", 1, &["p"])]);
        assert!(matches!(
            run.boundaries_detected(vec![]),
            PreflightAction::ReadObjects { warning: None, .. }
        ));
        let mut seen = readable("c0", &["p"]);
        seen.parents[0].1 = false;
        let next = run.objects_read(&vec![seen], &shallow);
        if gap {
            assert!(preflight_failure(next).contains("commit c0 names parent p"));
        } else {
            assert!(matches!(next, PreflightAction::ProjectCurrent));
        }
    }
    // What is imported is left out, but nothing below it may be new.
    let mut incremental = importer(true);
    incremental.options.imported_shas = vec!["c0".to_string()];
    let objects = vec![readable("c0", &[]), readable("c1", &["c0"])];
    let mut run = begin(&incremental);
    run.history_collected(vec![node("c1", 2, &["c0"]), node("c0", 1, &[])]);
    run.boundaries_detected(vec![]);
    run.objects_read(&objects, &vec![]);
    assert_eq!(run.order, vec!["c1"]);
    incremental.options.imported_shas = vec!["c1".to_string()];
    let mut run = begin(&incremental);
    run.history_collected(vec![node("c1", 2, &["c0"]), node("c0", 1, &[])]);
    run.boundaries_detected(vec![]);
    assert!(preflight_failure(run.objects_read(&objects, &vec![]))
        .contains("Git history deepened below already-imported commits: 1 unindexed commit(s) (oldest c0)"));
    // Nothing new makes an empty plan.
    incremental.options.imported_shas = vec!["c0".to_string(), "c1".to_string()];
    let mut run = begin(&incremental);
    run.history_collected(vec![node("c1", 2, &["c0"]), node("c0", 1, &[])]);
    run.boundaries_detected(vec![]);
    run.objects_read(&objects, &vec![]);
    assert!(matches!(run.current_projected(None), PreflightAction::Finish));
    assert!(run.into_plan().unwrap().commits.is_empty());
}

#[test]
fn trees_and_the_working_tree_can_stop_a_preflight() {
    let importer = importer(false);
    let (mut run, _) =
        PreflightRun::begin(&importer, "dev".to_string(), true, GitHashAlgorithm::Sha1);
    run.history_collected(vec![node("c0", 1, &[])]);
    run.boundaries_detected(vec![]);
    run.objects_read(&vec![readable("c0", &[])], &vec![]);
    run.current_projected(None);
    assert_eq!(
        preflight_failure(run.tree_read(&vec![entry(0o100666, ObjectKind::Blob)])),
        "Git import cannot preserve required mode/kind 0o100666 at 'a'"
    );

    let at_head = || {
        let gone = commit("c1", "Gone", &[], vec![file("a", FileOperation::Deleted, None)]);
        let mut run = parsed_run(&importer, true, plain("c0", "a"), gone);
        apply(&mut run, &vec![], tagged_oid_from_hex(TREE).unwrap(), "");
        apply(&mut run, &vec![], tagged_oid_from_hex(TREE).unwrap(), "");
        run
    };
    // Another branch is checked out.
    let mut run = at_head();
    assert!(matches!(run.head_read(Some("main"), true), PreflightAction::Finish));
    let mut run = at_head();
    assert_eq!(
        preflight_failure(run.head_read(Some("dev"), false)),
        "checked-out import branch has no worktree"
    );
    let mut run = at_head();
    run.head_read(Some("dev"), true);
    assert_eq!(
        preflight_failure(run.path_read(true, &vec![])),
        "deleted Git path 'a' is still present in the worktree"
    );
    // A tree id that is none.
    let mut odd = plain("c0", "a");
    odd.tree_oid = "zz".to_string();
    let mut run = parsed_run(&importer, true, odd, plain("c1", "a"));
    assert!(matches!(
        apply(&mut run, &vec![], tagged_oid_from_hex(TREE).unwrap(), ""),
        PreflightAction::Fail { .. }
    ));
    // What fails outside ends it, too.
    let (mut run, _) =
        PreflightRun::begin(&importer, "dev".to_string(), true, GitHashAlgorithm::Sha1);
    let failed = run.failed(CliError::GitError { message: "no".to_string() });
    assert_eq!(preflight_failure(failed), "no");
}

#[test]
fn a_commit_starts_from_the_state_of_its_parent() {
    let importer = importer(false);
    let starting = |parent: &str| {
        let mut c = plain("c0", "b");
        c.parent_tree_oid = Some(parent.to_string());
        c
    };
    // A state that is not known has to be read.
    let mut run = parsed_run(&importer, true, starting(OTHER), plain("c1", "a"));
    assert!(matches!(run.parent_state_read(&None, &fine(0)), PreflightAction::OutOfTurn));
    assert!(preflight_failure(run.parent_state_read(&None, &fine(1)))
        .starts_with("commit's parent tree is not cached"));
    assert_eq!(run.stage, PreflightStage::Failed);
    // The tree that was read is what the commit is applied to.
    let mut run = parsed_run(&importer, true, starting(OTHER), plain("c1", "a"));
    let mut held = entry(0o100644, ObjectKind::Blob);
    held.bytes = b"x".to_vec();
    assert!(matches!(
        run.parent_state_read(&Some(vec![held]), &fine(1)),
        PreflightAction::ProjectCommit
    ));
    let paths: Vec<String> =
        run.project.tree.entries.entries.iter().map(|(p, _)| p.clone()).collect();
    assert_eq!(paths, vec!["a", "b"]);
    assert!(matches!(run.parent_state_read(&None, &fine(1)), PreflightAction::OutOfTurn));
    // One that the store cannot hold is refused.
    let mut run = parsed_run(&importer, true, starting(OTHER), plain("c1", "a"));
    assert_eq!(
        preflight_failure(
            run.parent_state_read(&Some(vec![entry(0o100666, ObjectKind::Blob)]), &fine(1))
        ),
        "unsupported parent-tree Git mode 0o100666 at 'a'"
    );
    // So is a path that is none.
    let mut run = parsed_run(&importer, true, plain("c0", "b"), plain("c1", "a"));
    let mut bad = fine(1);
    bad[0].invalid = Some("empty".to_string());
    assert!(preflight_failure(run.parent_state_read(&None, &bad)).contains("empty"));
}

#[test]
fn a_commit_starts_from_the_current_tree_of_its_view() {
    let importer = importer(false);
    let mut run = begin(&importer);
    run.history_collected(vec![node("c0", 1, &[])]);
    run.boundaries_detected(vec![]);
    run.objects_read(&vec![readable("c0", &[])], &vec![]);
    let held = RepositoryEntry {
        path: "held".to_string(),
        bytes: b"h".to_vec(),
        mode: 0o644,
        kind: InodeKind::Regular,
        gitlink: None,
        excluded: false,
    };
    run.current_projected(Some((OTHER.to_string(), vec![held])));
    run.tree_read(&vec![]);
    let mut c = plain("c0", "a");
    c.parent_tree_oid = Some(OTHER.to_string());
    assert!(matches!(
        run.commits_parsed(vec![c]),
        PreflightAction::ApplyCommit { missing: None }
    ));
    apply(&mut run, &vec![], tagged_oid_from_hex(TREE).unwrap(), "");
    assert!(run.project.entry("held").is_some());
    assert_eq!(run.project.entry("a").unwrap().bytes, b"x");
    // The paths of the last commit are held against the state that it leaves.
    assert!(matches!(
        run.head_read(Some("dev"), true),
        PreflightAction::ReadPath { path, check: WorktreeCheck::Content } if path == "a"
    ));
    assert_eq!(
        preflight_failure(run.path_read(true, &b"y".to_vec())),
        "changed worktree path 'a' does not match the verified Git tree"
    );
}
