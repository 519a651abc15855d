use atomic_git::commit::{CommitMetadata, FileOperation, ParsedCommit, ParsedFile};
use atomic_git::error::CliError;
use atomic_git::graph::{ContentHash, Encoding};
use atomic_git::import::{
    among, classifies, correlation_id, drop_imported, finish_mode, incremental_import_skips,
    next_action,
    normalized_path, orphaned_files, paths_to_index, reports_progress, restore_order,
    self_push_state_known, should_skip_self_push, skipped_notice, write_route, CommitOutcome,
    FinishMode, ImportStats, ParallelImportOptions, ParallelImporter, WriteAction, WriteEvent,
    WriteRoute, WriteStats,
};
use atomic_git::message::{parse_push_trailer, push_state_text, Merkle, PushTrailer};

/// A view state and its text: 64 hexadecimal digits.
fn test_state() -> (String, Merkle) {
    let state = Merkle {
        hi: 0x0123_4567_89ab_cdef_0123_4567_89ab_cdef,
        lo: 0xfedc_ba98_7654_3210_fedc_ba98_7654_3210,
    };
    (format!("{:032x}{:032x}", state.hi, state.lo), state)
}

fn decode(text: &str) -> Option<Merkle> {
    if text.len() != 64 {
        return None;
    }
    let hi = u128::from_str_radix(&text[..32], 16).ok()?;
    let lo = u128::from_str_radix(&text[32..], 16).ok()?;
    Some(Merkle { hi, lo })
}

fn decoded(message: &str) -> Option<Merkle> {
    push_state_text(message).and_then(|text| decode(&text))
}

fn commit(sha: &str) -> ParsedCommit {
    ParsedCommit {
        git_sha: sha.to_string(),
        short_sha: sha.chars().take(8).collect(),
        metadata: CommitMetadata {
            author_name: "Test".to_string(),
            author_email: None,
            author_name_raw: b"Test".to_vec(),
            author_email_raw: None,
            timestamp: 1_700_000_000,
            message: "feat: test".to_string(),
            description: None,
            author_time: 1_700_000_000,
            author_time_offset_seconds: 0,
            committer_name: "Test".to_string(),
            committer_email: None,
            committer_name_raw: b"Test".to_vec(),
            committer_email_raw: None,
            committer_time: 1_700_000_000,
            committer_time_offset_seconds: 0,
        },
        files: Vec::new(),
        parent_index: None,
        parent_oids: Vec::new(),
        committer_time: 1_700_000_000,
        is_merge: false,
        is_empty: true,
        push_trailer: None,
        tree_oid: "0".repeat(40),
        parent_tree_oid: None,
        raw_object: Vec::new(),
    }
}

fn self_push_commit(view: &str, state_b32: &str) -> ParsedCommit {
    let message = format!("feat: test\n\nAtomic-View: {}\nAtomic-State: {}", view, state_b32);
    ParsedCommit {
        push_trailer: parse_push_trailer(&message, decoded(&message)),
        ..commit("aabbccdd11223344")
    }
}

fn file(path: &str, operation: FileOperation) -> ParsedFile {
    ParsedFile {
        path: path.to_string(),
        operation,
        new_content: Some(b"x\n".to_vec()),
        old_content: None,
        diff_lines: None,
        old_path: None,
        new_mode: Some(0o100644),
        new_encoding: Encoding::Utf8,
        old_encoding: None,
    }
}

fn message_of(error: CliError) -> String {
    match error {
        CliError::GitError { message } => message,
        CliError::Internal { message } => message,
        other => panic!("unexpected error {:?}", other),
    }
}

#[test]
fn test_should_skip_self_push() {
    let (state_b32, state) = test_state();
    let mut options = ParallelImportOptions {
        incremental: true,
        target_view: "main".to_string(),
        ..ParallelImportOptions::default()
    };
    options.known_states.push(state);

    let parsed = self_push_commit("main", &state_b32);
    assert!(should_skip_self_push(&parsed, &options));

    // Wrong view (e.g. commit pushed from `dev`, now imported on `main`)
    let mut options_dev = options.clone();
    options_dev.target_view = "dev".to_string();
    assert!(!should_skip_self_push(&parsed, &options_dev));

    // Unknown state: must import (content may not be present locally)
    let mut options_empty = options.clone();
    options_empty.known_states = Vec::new();
    assert!(!should_skip_self_push(&parsed, &options_empty));

    // No trailer: never skipped
    let mut plain = self_push_commit("main", &state_b32);
    plain.push_trailer = None;
    assert!(!should_skip_self_push(&plain, &options));

    // Full (non-incremental) imports never skip
    let mut options_full = options.clone();
    options_full.incremental = false;
    assert!(!should_skip_self_push(&parsed, &options_full));
}

#[test]
fn test_incremental_import_skips() {
    let (state_b32, state) = test_state();
    let self_push_msg = format!("feat: test\n\nAtomic-View: main\nAtomic-State: {}", state_b32);
    let plain_msg = "feat: ordinary human commit";
    let imported = vec!["already-imported-sha".to_string()];
    let known_states = vec![state];
    let skips = |sha: &str, message: &str, view: &str, known: &Vec<Merkle>| {
        incremental_import_skips(sha, message, decoded(message), &imported, view, known)
    };

    // Already-imported SHA is skipped regardless of message.
    assert!(skips("already-imported-sha", plain_msg, "main", &known_states));
    // Self-push commit whose state is already in the target view is skipped.
    assert!(skips("new-sha", &self_push_msg, "main", &known_states));
    // Self-push commit for a DIFFERENT view is not skipped.
    assert!(!skips("new-sha", &self_push_msg, "dev", &known_states));
    // Self-push commit whose state is unknown is not skipped.
    assert!(!skips("new-sha", &self_push_msg, "main", &Vec::new()));
    // An ordinary new commit is imported (not skipped).
    assert!(!skips("new-sha", plain_msg, "main", &known_states));
}

#[test]
fn the_forecast_and_the_import_skip_the_same() {
    let (state_b32, state) = test_state();
    for (view, known) in [("main", vec![state]), ("dev", vec![state]), ("main", vec![])] {
        let parsed = self_push_commit("main", &state_b32);
        let message = format!("feat: test\n\nAtomic-View: main\nAtomic-State: {}", state_b32);
        let options = ParallelImportOptions {
            incremental: true,
            target_view: view.to_string(),
            known_states: known.clone(),
            ..ParallelImportOptions::default()
        };
        assert_eq!(
            should_skip_self_push(&parsed, &options),
            incremental_import_skips(
                &parsed.git_sha,
                &message,
                decoded(&message),
                &options.imported_shas,
                view,
                &known
            )
        );
    }
}

#[test]
fn a_state_is_known_only_of_its_own_view() {
    let state = Merkle { hi: 1, lo: 2 };
    let trailer = PushTrailer { view: "main".to_string(), state, changes: Vec::new() };
    assert!(self_push_state_known(&trailer, "main", &vec![Merkle { hi: 0, lo: 0 }, state]));
    assert!(!self_push_state_known(&trailer, "main", &vec![Merkle { hi: 1, lo: 3 }]));
    assert!(!self_push_state_known(&trailer, "dev", &vec![state]));
}

#[test]
fn test_file_operation_equality() {
    assert_eq!(FileOperation::Added, FileOperation::Added);
    assert_ne!(FileOperation::Added, FileOperation::Modified);
}

#[test]
fn test_import_stats_default() {
    let stats = ImportStats::default();
    assert_eq!(stats.commits_found, 0);
    assert_eq!(stats.changes_written, 0);
}

#[test]
fn the_default_options_import_a_whole_branch() {
    let options = ParallelImportOptions::default();
    assert!(!options.incremental);
    assert!(options.imported_shas.is_empty());
    assert_eq!(options.repo_name, "unknown");
    assert!(options.mainline_only);
    assert!(!options.graph_only);
    assert!(!options.preserve_working_copy);
    assert_eq!(options.target_view, "");
    assert!(options.known_states.is_empty());
    assert!(options.validate_equivalence);
}

#[test]
fn test_finalize_rejects_partial_import() {
    let importer =
        ParallelImporter::new("/repo/.git".to_string(), ParallelImportOptions::default());
    let stats = ImportStats { commits_parsed: 2, changes_written: 1, ..ImportStats::default() };

    assert!(matches!(importer.phase3_finalize(&stats), Err(CliError::GitError { .. })));
}

#[test]
fn finalize_counts_every_kind_of_outcome() {
    let importer =
        ParallelImporter::new("/repo/.git".to_string(), ParallelImportOptions::default());
    let stats = ImportStats {
        commits_parsed: 21,
        changes_written: 1,
        empty_commits: 2,
        merge_commits: 3,
        self_push_skipped: 4,
        squash_inserted: 5,
        squash_skipped: 6,
        ..ImportStats::default()
    };
    assert!(importer.phase3_finalize(&stats).is_ok());
    let short = ImportStats { commits_parsed: 22, ..stats };
    assert_eq!(
        message_of(importer.phase3_finalize(&short).unwrap_err()),
        "Import verification failed: 22 commits parsed but 21 changes created"
    );
}

#[test]
fn test_import_batch_size_is_fixed_at_1000() {
    assert_eq!(ParallelImporter::batch_size_for(0), 1_000);
    assert_eq!(ParallelImporter::batch_size_for(82), 1_000);
    assert_eq!(ParallelImporter::batch_size_for(18_000), 1_000);
    assert_eq!(ParallelImporter::batch_size_for(100_000), 1_000);
}

#[test]
fn an_import_is_named_by_time_process_and_number() {
    assert_eq!(correlation_id(1_700_000_000_123, 42, 7), "import-1700000000123-42-7");
}

#[test]
fn imported_commits_are_dropped_in_order() {
    let ordered = vec!["a".to_string(), "b".to_string(), "c".to_string(), "d".to_string()];
    let imported = vec!["c".to_string(), "a".to_string(), "z".to_string()];
    assert_eq!(drop_imported(&ordered, &imported), vec!["b", "d"]);
}

#[test]
fn parsed_commits_come_back_in_the_order_of_their_ids() {
    let ids = vec!["a".to_string(), "b".to_string(), "c".to_string()];
    let parsed = vec![commit("x"), commit("c"), commit("a"), commit("b"), commit("y")];
    let order: Vec<String> =
        restore_order(&ids, parsed).into_iter().map(|c| c.git_sha).collect();
    assert_eq!(order, vec!["a", "b", "c", "x", "y"]);
    // Without strangers what comes back is among the ids, in their order.
    let restored = restore_order(&ids, vec![commit("c"), commit("a")]);
    assert!(among(&restored, &ids));
    assert_eq!((restored[0].git_sha.as_str(), restored[1].git_sha.as_str()), ("a", "c"));
    assert!(!among(&vec![commit("x")], &ids));
    assert!(!among(&vec![commit("b"), commit("b")], &ids));
}

#[test]
fn a_commit_is_skipped_squashed_restored_or_written() {
    let (state_b32, state) = test_state();
    let parsed = self_push_commit("main", &state_b32);
    let incremental = ParallelImportOptions {
        incremental: true,
        target_view: "main".to_string(),
        known_states: vec![state],
        ..ParallelImportOptions::default()
    };
    let full = ParallelImportOptions::default();
    assert_eq!(
        next_action(&parsed, &incremental, WriteEvent::Start),
        WriteAction::Done(CommitOutcome::SelfPushSkipped)
    );
    assert_eq!(
        next_action(&commit("a"), &incremental, WriteEvent::Start),
        WriteAction::TrySquashInsert
    );
    assert_eq!(next_action(&parsed, &full, WriteEvent::Start), WriteAction::FindBinding);
    assert_eq!(next_action(&parsed, &full, WriteEvent::NotSquash), WriteAction::FindBinding);
    assert_eq!(
        next_action(&parsed, &full, WriteEvent::SquashInserted),
        WriteAction::Done(CommitOutcome::SquashInserted)
    );
    assert_eq!(
        next_action(&parsed, &full, WriteEvent::SquashSkipped),
        WriteAction::Done(CommitOutcome::SquashSkipped)
    );
    assert_eq!(next_action(&parsed, &full, WriteEvent::BindingFound), WriteAction::Resurrect);
    assert_eq!(next_action(&parsed, &full, WriteEvent::NoBinding), WriteAction::Write);
    assert_eq!(
        next_action(&parsed, &full, WriteEvent::Resurrected),
        WriteAction::Done(CommitOutcome::Resurrected)
    );
    let mut merge = commit("a");
    merge.is_merge = true;
    let mut change = commit("a");
    change.is_empty = false;
    assert_eq!(
        next_action(&merge, &full, WriteEvent::Written),
        WriteAction::Done(CommitOutcome::MergeWritten)
    );
    assert_eq!(
        next_action(&commit("a"), &full, WriteEvent::Written),
        WriteAction::Done(CommitOutcome::EmptyWritten)
    );
    assert_eq!(
        next_action(&change, &full, WriteEvent::Written),
        WriteAction::Done(CommitOutcome::ChangeWritten)
    );
}

#[test]
fn a_known_commit_is_reused_before_anything_is_written() {
    let hash = ContentHash { hi: 1, lo: 1 };
    let mut merge = commit("a");
    merge.is_merge = true;
    let mut change = commit("a");
    change.is_empty = false;
    assert_eq!(write_route(Some(hash), &merge), WriteRoute::Reuse);
    assert_eq!(write_route(None, &merge), WriteRoute::MergeResolution);
    assert_eq!(write_route(None, &change), WriteRoute::Synthesize);
    assert_eq!(write_route(None, &commit("a")), WriteRoute::Empty);
}

#[test]
fn a_complete_write_phase_verifies() {
    let outcomes = [
        (CommitOutcome::ChangeWritten, 3),
        (CommitOutcome::SelfPushSkipped, 5),
        (CommitOutcome::SquashInserted, 2),
        (CommitOutcome::SquashSkipped, 7),
        (CommitOutcome::Resurrected, 1),
        (CommitOutcome::MergeWritten, 4),
        (CommitOutcome::EmptyWritten, 0),
    ];
    let mut written = WriteStats::new();
    for (outcome, files) in outcomes {
        written.count(outcome, files);
    }
    assert_eq!(written.changes_written, 2);
    assert_eq!(written.resurrected_exact, 1);
    assert_eq!(written.files_processed, 10);
    let mut stats = ParallelImporter::initial_stats(7, "import-1".to_string());
    assert!(stats.complete(&written).is_none());
    let importer =
        ParallelImporter::new("/repo/.git".to_string(), ParallelImportOptions::default());
    assert!(importer.phase3_finalize(&stats).is_ok());
    assert_eq!(stats.correlation_id, "import-1");
}

#[test]
fn a_failed_write_phase_tells_what_landed() {
    let mut written = WriteStats::new();
    written.count(CommitOutcome::ChangeWritten, 1);
    written.count(CommitOutcome::SelfPushSkipped, 1);
    written.count(CommitOutcome::MergeWritten, 2);
    written.fail("disk full".to_string());
    let mut stats = ParallelImporter::initial_stats(9, String::new());
    let (landed, error) = stats.complete(&written).unwrap();
    assert_eq!(landed, 2);
    assert_eq!(
        message_of(error),
        "partial import failed after 2 landed commit(s): disk full"
    );
    assert_eq!(stats.files_processed, 3);
    assert_eq!(stats.self_push_skipped, 0);
}

#[test]
fn skipped_pushes_are_told_of() {
    let mut stats = ImportStats::default();
    assert!(skipped_notice(&stats).is_none());
    stats.self_push_skipped = 1;
    assert_eq!(
        skipped_notice(&stats).unwrap(),
        "Skipped 1 commit created by `atomic git push` (state already in view)"
    );
    stats.self_push_skipped = 12;
    assert_eq!(
        skipped_notice(&stats).unwrap(),
        "Skipped 12 commits created by `atomic git push` (state already in view)"
    );
}

#[test]
fn the_working_copy_is_reconciled_only_without_a_proof() {
    let mut options = ParallelImportOptions::default();
    assert_eq!(finish_mode(&options), FinishMode::Proved);
    options.validate_equivalence = false;
    assert_eq!(finish_mode(&options), FinishMode::Reconcile);
    options.preserve_working_copy = true;
    assert_eq!(finish_mode(&options), FinishMode::DropStaleCache);
    assert!(!classifies(&options, 3));
    options.incremental = true;
    assert!(classifies(&options, 3));
    assert!(!classifies(&options, 0));
}

#[test]
fn files_that_are_gone_are_orphans() {
    let recorded = vec!["a".to_string(), "b".to_string(), "c".to_string()];
    assert_eq!(orphaned_files(&recorded, &vec![true, false, false]), vec!["b", "c"]);
    assert_eq!(normalized_path("src\\lib\\a.rs"), "src/lib/a.rs");
}

#[test]
fn deleted_files_are_not_indexed() {
    let files = vec![
        file("a", FileOperation::Added),
        file("b", FileOperation::Deleted),
        file("c", FileOperation::Renamed),
    ];
    assert_eq!(paths_to_index(&files), vec!["a", "c"]);
}

#[test]
fn progress_is_told_every_hundred_commits_of_a_long_run() {
    assert!(reports_progress(101, 0));
    assert!(reports_progress(500, 200));
    assert!(!reports_progress(500, 250));
    assert!(!reports_progress(100, 0));
}
