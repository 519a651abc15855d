use atomic_git::commit::{CommitMetadata, FileOperation, ParsedCommit, ParsedFile};
use atomic_git::error::CliError;
use atomic_git::facts::{
    build_git_metadata, empty_commit_facts, foreign_commit_facts, staged_expectation_for,
};
use atomic_git::graph::{ContentHash, Encoding};
use atomic_git::graph_first::FileOps;
use atomic_git::line_units::GitDiffLine;
use atomic_git::merge::{
    merge_added_paths, merge_parent_closure, merge_step, require_deletion_binding,
    require_merge_record, resolution_origin, MergeRecord, MergeStep, ParentClosure,
};
use atomic_git::oid::tagged_oid_hex;
use atomic_git::parse::DeltaStatus;
use atomic_git::push::GitHashAlgorithm;
use atomic_git::records::{
    record_generated_full_replace, record_git_diff_add_fast, record_git_import_add_linewise,
    should_detect_renames, DetectionKind, FileBinding, WholeFileHunk,
};
use atomic_git::synthesis::{
    baseline_for_recording, empty_deletion, empty_record, expected_materialization, judge_record,
    plan_files, plan_rename, registered_paths, required_content, semantic_paths, synthesis_origin, EffectiveOp,
    FileObservation, FilePlan, GitDerivation, InodeAttr, MoveBasis, ProjectedAttributes,
    RecordKind, RecordSummary, RecordVerdict, RenamePlan,
};
use atomic_git::tree::{InodeKind, RepositoryEntry};

const COMMIT: &str = "00112233445566778899aabbccddeeff00112233";
const TREE: &str = "4b825dc642cb6eb9a060e54bf8d69288fbee4904";
const PARENT: &str = "ffeeddccbbaa99887766554433221100ffeeddcc";

fn file(path: &str, operation: FileOperation, content: Option<&[u8]>) -> ParsedFile {
    ParsedFile {
        path: path.to_string(),
        operation,
        new_content: content.map(|c| c.to_vec()),
        old_content: None,
        diff_lines: None,
        old_path: None,
        new_mode: Some(0o100644),
        new_encoding: Encoding::Utf8,
        old_encoding: None,
    }
}

fn commit(subject: &str, parents: &[&str], files: Vec<ParsedFile>) -> ParsedCommit {
    ParsedCommit {
        git_sha: COMMIT.to_string(),
        short_sha: "00112233".to_string(),
        metadata: CommitMetadata {
            author_name: "Ann".to_string(),
            author_email: Some("ann@example.com".to_string()),
            author_name_raw: b"Ann".to_vec(),
            author_email_raw: Some(b"ann@example.com".to_vec()),
            timestamp: 1_700_000_000,
            message: subject.to_string(),
            description: None,
            author_time: 1_700_000_000,
            author_time_offset_seconds: 3600,
            committer_name: "Bob".to_string(),
            committer_email: None,
            committer_name_raw: b"Bo\xff".to_vec(),
            committer_email_raw: None,
            committer_time: 1_700_000_001,
            committer_time_offset_seconds: -3600,
        },
        files,
        parent_index: None,
        parent_oids: parents.iter().map(|p| p.to_string()).collect(),
        committer_time: 1_700_000_001,
        is_merge: parents.len() > 1,
        is_empty: false,
        push_trailer: None,
        tree_oid: TREE.to_string(),
        parent_tree_oid: None,
        raw_object: b"tree\n\x00\xab".to_vec(),
    }
}

fn git_message(error: CliError) -> String {
    match error {
        CliError::GitError { message } => message,
        other => panic!("expected a Git error, got {:?}", other),
    }
}

fn internal_message(error: CliError) -> String {
    match error {
        CliError::Internal { message } => message,
        other => panic!("expected an internal error, got {:?}", other),
    }
}

fn unseen() -> FileObservation {
    FileObservation { view_baseline: None, projected: None }
}

fn holding(bytes: &[u8], mode: u32) -> FileObservation {
    FileObservation {
        view_baseline: Some(bytes.to_vec()),
        projected: Some(ProjectedAttributes {
            conflicted: false,
            mode,
            kind: InodeKind::Regular,
        }),
    }
}

#[test]
fn an_origin_names_the_objects_of_its_commit() {
    let origin = synthesis_origin(&commit("Add it", &[PARENT], vec![])).unwrap();
    assert_eq!(tagged_oid_hex(&origin.commit), COMMIT);
    assert_eq!(tagged_oid_hex(&origin.tree), TREE);
    assert_eq!(origin.parents.len(), 1);
    assert_eq!(tagged_oid_hex(&origin.parents[0]), PARENT);
    assert_eq!(origin.commit.algorithm, GitHashAlgorithm::Sha1);
    assert_eq!(origin.derivation, GitDerivation::FirstParent);
    assert_eq!(
        synthesis_origin(&commit("Start", &[], vec![])).unwrap().derivation,
        GitDerivation::Root
    );
    let mut squashed = commit("Add it (#12)", &[PARENT], vec![]);
    squashed.metadata.description = Some("* First\n\n* Second".to_string());
    assert_eq!(synthesis_origin(&squashed).unwrap().derivation, GitDerivation::Squash);
}

#[test]
fn a_merge_is_not_synthesized_as_a_single_commit() {
    let error = synthesis_origin(&commit("Merge", &[PARENT, TREE], vec![])).unwrap_err();
    assert_eq!(
        git_message(error),
        format!("commit {COMMIT} has 2 parents; multi-parent commits take the GitResolution path, not single-commit synthesis")
    );
}

#[test]
fn ids_that_name_no_object_are_told_of() {
    let mut short = commit("x", &[], vec![]);
    short.git_sha = "abc".to_string();
    assert_eq!(
        git_message(synthesis_origin(&short).unwrap_err()),
        "cannot classify Git hash algorithm for 3-character SHA 'abc'"
    );
    let mut bad_tree = commit("x", &[], vec![]);
    bad_tree.tree_oid = "not hex".to_string();
    let told = git_message(synthesis_origin(&bad_tree).unwrap_err());
    assert!(told.starts_with("invalid Git commit SHA 'not hex': "), "{told}");
    let mut wide = commit("x", &[], vec![]);
    wide.git_sha = "0".repeat(64);
    assert!(matches!(synthesis_origin(&wide), Err(CliError::GitError { .. })));
    let bad_parent = commit("x", &["zz"], vec![]);
    let told = git_message(foreign_commit_facts(&bad_parent).unwrap_err());
    assert!(told.starts_with("invalid Git commit SHA 'zz': "), "{told}");
    let told = git_message(resolution_origin(&bad_parent).unwrap_err());
    assert!(told.starts_with("invalid Git commit SHA 'zz': "), "{told}");
}

#[test]
fn the_facts_of_a_commit_carry_its_raw_object() {
    let facts = foreign_commit_facts(&commit("Add it", &[PARENT], vec![])).unwrap();
    assert_eq!(facts.format, "atomic:foreign-commit:v1");
    assert_eq!(facts.commit, COMMIT);
    assert_eq!(facts.tree, TREE);
    assert_eq!(facts.algorithm, "sha1");
    assert_eq!(facts.parents, vec![PARENT]);
    assert_eq!(facts.raw_object_hex, "747265650a00ab");
    assert_eq!(facts.author.name_raw_hex, "416e6e");
    assert_eq!(facts.author.time_offset_seconds, 3600);
    assert_eq!(facts.committer.name, "Bob");
    assert_eq!(facts.committer.name_raw_hex, "426fff");
    assert_eq!(facts.committer.email, None);
    assert_eq!(facts.committer.email_raw_hex, "");
}

#[test]
fn the_facts_of_distinct_empty_commits_differ() {
    let one = commit("Nothing", &[PARENT], vec![]);
    let mut other = commit("Nothing", &[PARENT], vec![]);
    other.raw_object = b"tree\n\x00\xac".to_vec();
    let a = empty_commit_facts(&one).unwrap();
    let b = empty_commit_facts(&other).unwrap();
    assert_eq!(a.format, "atomic:empty-commit:v1");
    assert_eq!(a.tree_algorithm, "sha1");
    assert_ne!(a.raw_object_hex, b.raw_object_hex);
}

#[test]
fn a_file_is_planned_against_what_the_view_holds() {
    let mut modified = file("m", FileOperation::Modified, Some(b"new"));
    modified.old_content = Some(b"git".to_vec());
    let files = vec![
        file("a", FileOperation::Added, Some(b"x")),
        file("same", FileOperation::Added, Some(b"x")),
        file("mode", FileOperation::Added, Some(b"x")),
        file("other", FileOperation::Copied, Some(b"x")),
        modified,
        file("d", FileOperation::Deleted, None),
        file("gone", FileOperation::Deleted, None),
        file("r", FileOperation::Renamed, Some(b"x")),
    ];
    let seen = vec![
        unseen(),
        holding(b"x", 0o644),
        holding(b"x", 0o755),
        holding(b"y", 0o644),
        holding(b"view", 0o644),
        holding(b"d", 0o644),
        unseen(),
        unseen(),
    ];
    let plans = plan_files(&files, &seen, COMMIT, "main").unwrap();
    let ops: Vec<EffectiveOp> = plans.iter().map(|p| p.op).collect();
    assert_eq!(
        ops,
        vec![
            EffectiveOp::Added,
            EffectiveOp::Skip,
            EffectiveOp::Modified,
            EffectiveOp::Modified,
            EffectiveOp::Modified,
            EffectiveOp::Deleted,
            EffectiveOp::Skip,
            EffectiveOp::Renamed,
        ]
    );
    assert_eq!(
        plans[0].attrs,
        vec![InodeAttr::Mode(0o644), InodeAttr::Kind(InodeKind::Regular)]
    );
    assert_eq!(plans[2].attrs, vec![InodeAttr::Mode(0o644)]);
    assert!(plans[3].attrs.is_empty());
    assert_eq!(plans[3].baseline, b"y");
    assert_eq!(plans[4].baseline, b"git");
    let (added, deleted) = registered_paths(&files, &plans);
    assert_eq!(added, vec!["a"]);
    assert_eq!(deleted, vec!["d"]);
}

#[test]
fn a_change_of_kind_is_written_as_an_attribute() {
    let mut link = file("l", FileOperation::Modified, Some(b"target"));
    link.new_mode = Some(0o120000);
    let plans = plan_files(&vec![link], &vec![holding(b"x", 0o644)], COMMIT, "main").unwrap();
    assert!(plans[0].attrs.contains(&InodeAttr::Kind(InodeKind::Symlink)));
}

#[test]
fn a_modified_file_without_a_baseline_is_refused() {
    let files = vec![file("m", FileOperation::Modified, Some(b"x"))];
    assert_eq!(
        git_message(plan_files(&files, &vec![unseen()], COMMIT, "main").unwrap_err()),
        format!("commit {COMMIT} classifies 'm' as modified but neither the Git parent tree nor the exact assembly closure holds it; refusing to fabricate a baseline")
    );
}

#[test]
fn conflicted_attributes_are_never_written_over() {
    let files = vec![file("m", FileOperation::Modified, Some(b"x"))];
    let mut seen = holding(b"y", 0o644);
    seen.projected.as_mut().unwrap().conflicted = true;
    assert_eq!(
        internal_message(plan_files(&files, &vec![seen], COMMIT, "main").unwrap_err()),
        "path 'm' has conflicted inode attribute registers in view 'main'; refusing to synthesize attributes over an unresolved register"
    );
}

#[test]
fn a_mode_that_cannot_be_projected_is_refused() {
    assert_eq!(expected_materialization(0o100755).unwrap(), (InodeKind::Regular, 0o755));
    assert_eq!(
        git_message(expected_materialization(0o100600).unwrap_err()),
        "unsupported Git file mode 0o100600; refusing to synthesize attributes that cannot project this representation"
    );
}

fn renamed(from: &str, to: &str, old: &[u8], new: &[u8]) -> ParsedFile {
    let mut f = file(to, FileOperation::Renamed, Some(new));
    f.old_path = Some(from.to_string());
    f.old_content = Some(old.to_vec());
    f
}

fn planned(files: &Vec<ParsedFile>) -> Vec<FilePlan> {
    let seen: Vec<FileObservation> = files.iter().map(|_| unseen()).collect();
    plan_files(files, &seen, COMMIT, "main").unwrap()
}

#[test]
fn a_rename_with_one_possible_pairing_is_a_move() {
    let files = vec![renamed("old", "new", b"text\n", b"text\n")];
    let plans = planned(&files);
    match plan_rename(&files, &plans, 0, true, true) {
        RenamePlan::Move { old_path, score, basis } => {
            assert_eq!(old_path, "old");
            assert_eq!(score, 10_000);
            assert_eq!(basis, MoveBasis::ByteIdentity);
        }
        other => panic!("unexpected step {:?}", other),
    }
}

#[test]
fn an_ambiguous_rename_names_every_candidate() {
    let mut gone = file("twin", FileOperation::Deleted, None);
    gone.old_content = Some(b"text\n".to_vec());
    let files = vec![
        renamed("old", "new", b"text\n", b"text\n"),
        gone,
        file("copy", FileOperation::Added, Some(b"text\n")),
    ];
    let plans = planned(&files);
    match plan_rename(&files, &plans, 0, true, true) {
        RenamePlan::Replace { deleted, candidates, content } => {
            assert_eq!(deleted.as_deref(), Some("old"));
            assert_eq!(content.as_deref(), Some(&b"text\n"[..]));
            let pairs: Vec<(&str, &str, u16, MoveBasis)> = candidates
                .iter()
                .map(|c| (c.source.as_str(), c.destination.as_str(), c.score, c.basis))
                .collect();
            assert_eq!(
                pairs,
                vec![
                    ("old", "new", 10_000, MoveBasis::ByteIdentity),
                    ("old", "copy", 10_000, MoveBasis::ByteIdentity),
                    ("twin", "new", 10_000, MoveBasis::ByteIdentity),
                    ("twin", "copy", 10_000, MoveBasis::ByteIdentity),
                ]
            );
        }
        other => panic!("unexpected step {:?}", other),
    }
}

#[test]
fn a_rename_out_of_an_unknown_file_replaces_it() {
    let files = vec![renamed("old", "new", b"text\n", b"text\nmore\n")];
    let plans = planned(&files);
    match plan_rename(&files, &plans, 0, true, false) {
        RenamePlan::Replace { candidates, .. } => {
            assert_eq!(candidates.len(), 1);
            assert_eq!(candidates[0].basis, MoveBasis::ContentSimilarity);
            assert_eq!(candidates[0].score, 5_000);
        }
        other => panic!("unexpected step {:?}", other),
    }
}

#[test]
fn a_file_without_bytes_is_refused() {
    let lacking = file("a", FileOperation::Added, None);
    assert_eq!(
        git_message(required_content(COMMIT, RecordKind::Added, &lacking).unwrap_err()),
        format!("commit {COMMIT} omitted bytes for added path 'a'")
    );
}

#[test]
fn what_the_view_holds_decides_what_a_file_amounts_to() {
    let files = vec![
        file("a", FileOperation::Added, Some(b"x")),
        file("m", FileOperation::Added, Some(b"x")),
        file("d", FileOperation::Deleted, None),
        file("s", FileOperation::Deleted, None),
    ];
    let seen = vec![unseen(), holding(b"y", 0o644), holding(b"d", 0o644), unseen()];
    let plans = plan_files(&files, &seen, COMMIT, "main").unwrap();
    let ops: Vec<EffectiveOp> = plans.iter().map(|p| p.op).collect();
    assert_eq!(
        ops,
        vec![
            EffectiveOp::Added,
            EffectiveOp::Modified,
            EffectiveOp::Deleted,
            EffectiveOp::Skip,
        ]
    );
}

#[test]
fn an_empty_record_needs_a_reason() {
    let mode = vec![InodeAttr::Mode(0o755)];
    let judge = |empty: bool, attrs: &Vec<InodeAttr>, a: &[u8], b: &[u8]| {
        judge_record(empty, attrs, &a.to_vec(), &b.to_vec(), "p")
    };
    assert_eq!(judge(false, &vec![], b"a", b"b").unwrap(), RecordVerdict::Keep);
    assert_eq!(judge(true, &mode, b"a", b"b").unwrap(), RecordVerdict::AttributesOnly);
    assert_eq!(judge(true, &vec![], b"a", b"a").unwrap(), RecordVerdict::NoDelta);
    assert_eq!(
        internal_message(judge(true, &vec![], b"a", b"b").unwrap_err()),
        "cannot record modified path 'p': record is empty"
    );
    assert_eq!(
        internal_message(empty_record(RecordKind::Renamed, "p")),
        "cannot record renamed path 'p': record is empty"
    );
    assert_eq!(
        internal_message(empty_deletion("p")),
        "cannot import ambiguous rename source 'p': canonical FileDel is empty"
    );
}

#[test]
fn the_recording_baseline_is_that_of_the_lineage() {
    let plan = FilePlan { op: EffectiveOp::Modified, baseline: b"plan".to_vec(), attrs: vec![] };
    let mut f = file("p", FileOperation::Modified, Some(b"x"));
    f.old_content = Some(b"git".to_vec());
    let held = Some(b"held".to_vec());
    assert_eq!(baseline_for_recording(true, &plan, &held, &f), b"plan");
    assert_eq!(baseline_for_recording(false, &plan, &held, &f), b"held");
    assert_eq!(baseline_for_recording(false, &plan, &None, &f), b"git");
    f.old_content = None;
    assert!(baseline_for_recording(false, &plan, &None, &f).is_empty());
}

#[test]
fn only_semantic_records_are_named() {
    let summary = |path: &str, semantic: bool| RecordSummary { path: path.to_string(), semantic };
    assert_eq!(
        semantic_paths(&vec![summary("a", true), summary("b", false), summary("c", true)]),
        vec!["a", "c"]
    );
}

#[test]
fn a_change_must_project_its_whole_tree() {
    let parsed = commit(
        "x",
        &[],
        vec![
            file("a", FileOperation::Added, Some(b"x")),
            file("d", FileOperation::Deleted, None),
            file("n", FileOperation::Modified, None),
        ],
    );
    let entry = |path: &str, excluded: bool| RepositoryEntry {
        path: path.to_string(),
        bytes: b"x".to_vec(),
        mode: 0o644,
        kind: InodeKind::Regular,
        gitlink: None,
        excluded,
    };
    let entries = vec![entry("a", false), entry("hidden", true)];
    let expectation = staged_expectation_for(&parsed, &entries, &vec!["a".to_string()]);
    let paths: Vec<(&str, Option<&[u8]>)> = expectation
        .paths
        .iter()
        .map(|p| (p.path.as_str(), p.expected.as_deref()))
        .collect();
    assert_eq!(paths, vec![("a", Some(&b"x"[..])), ("d", None), ("n", Some(&b""[..]))]);
    assert_eq!(expectation.entries.len(), 1);
    assert_eq!(expectation.entries[0].path, "a");
    assert_eq!(expectation.semantic_paths, vec!["a"]);
}

#[test]
fn the_description_carries_the_diffs_of_its_files() {
    let mut with_diff = file("a", FileOperation::Modified, Some(b"x"));
    with_diff.diff_lines = Some(vec![GitDiffLine {
        origin: '+',
        content: b"x".to_vec(),
        old_lineno: None,
        new_lineno: Some(1),
    }]);
    let parsed =
        commit("x", &[], vec![with_diff, file("b", FileOperation::Added, Some(b"y"))]);
    let metadata = build_git_metadata("repo", &parsed, false, true);
    assert_eq!(metadata.repository, "repo");
    assert_eq!(metadata.sha, COMMIT);
    assert_eq!(metadata.short_sha, "00112233");
    assert_eq!(metadata.diff_lines.len(), 1);
    assert_eq!(metadata.diff_lines[0].operation, "modified");
    assert_eq!(metadata.diff_lines[0].lines[0].origin, '+');
    assert!(!metadata.empty_commit);
    assert!(metadata.empty_merge);
}

fn hash(n: u128) -> ContentHash {
    ContentHash { hi: n, lo: 0 }
}

fn parent(sha: &str, change: Option<u128>, closure: &[u128]) -> ParentClosure {
    ParentClosure {
        sha: sha.to_string(),
        change: change.map(hash),
        closure: closure.iter().map(|n| hash(*n)).collect(),
    }
}

#[test]
fn a_merge_unites_the_closures_of_its_parents() {
    let parents = vec![parent("p", Some(3), &[3, 1]), parent("q", Some(2), &[2, 1])];
    assert_eq!(merge_parent_closure("m", &parents).unwrap(), vec![hash(1), hash(2), hash(3)]);
    assert_eq!(
        git_message(
            merge_parent_closure("m", &vec![parent("p", Some(1), &[1]), parent("q", None, &[])])
                .unwrap_err()
        ),
        "merge m parent q has no locally verified imported change; every parent closure must be imported before the resolution"
    );
    assert_eq!(
        git_message(merge_parent_closure("m", &vec![parent("p", Some(1), &[])]).unwrap_err()),
        "merge m parent closures cannot be reconstructed locally; refusing to invent a partial union state"
    );
}

#[test]
fn the_tree_of_a_merge_wins_over_the_union() {
    let f = |content: Option<&[u8]>| file("p", FileOperation::Modified, content);
    let held = |bytes: &[u8]| Some(bytes.to_vec());
    assert!(matches!(merge_step(&f(Some(b"a")), &held(b"a")), MergeStep::Nothing));
    assert!(matches!(
        merge_step(&f(Some(b"a")), &held(b"b")),
        MergeStep::Resolve { content } if content == b"a"
    ));
    assert!(matches!(
        merge_step(&f(Some(b"a")), &None),
        MergeStep::Add { content } if content == b"a"
    ));
    assert!(matches!(merge_step(&f(None), &held(b"b")), MergeStep::Delete));
    assert!(matches!(merge_step(&f(None), &None), MergeStep::Nothing));
    assert_eq!(
        merge_added_paths(&vec![f(Some(b"a")), f(None)], &vec![None, held(b"b")]),
        vec!["p"]
    );
}

#[test]
fn a_merge_leaves_nothing_unrecorded() {
    assert!(require_merge_record(false, MergeRecord::Deletion, "p").is_ok());
    assert_eq!(
        internal_message(require_merge_record(true, MergeRecord::Resolution, "p").unwrap_err()),
        "cannot record merge resolution for 'p': record is empty"
    );
    assert_eq!(
        internal_message(require_merge_record(true, MergeRecord::Addition, "p").unwrap_err()),
        "cannot record merge addition 'p': record is empty"
    );
    assert_eq!(
        internal_message(require_merge_record(true, MergeRecord::Deletion, "p").unwrap_err()),
        "cannot import merge deletion 'p': canonical FileDel is empty"
    );
    assert!(require_deletion_binding(true, "p").is_ok());
    assert_eq!(
        git_message(require_deletion_binding(false, "p").unwrap_err()),
        "cannot import merge deletion 'p': no stable inode binding"
    );
}

#[test]
fn a_resolution_names_every_parent() {
    let origin = resolution_origin(&commit("Merge", &[PARENT, TREE], vec![])).unwrap();
    assert_eq!(tagged_oid_hex(&origin.commit), COMMIT);
    let parents: Vec<String> = origin.parents.iter().map(tagged_oid_hex).collect();
    assert_eq!(parents, vec![PARENT, TREE]);
}

#[test]
fn renames_are_searched_for_only_where_it_is_worth_it() {
    let deltas = |adds: usize, deletes: usize| {
        let mut v = vec![DeltaStatus::Added; adds];
        v.extend(vec![DeltaStatus::Deleted; deletes]);
        v.push(DeltaStatus::Modified);
        v
    };
    assert!(!should_detect_renames(&deltas(0, 3)));
    assert!(!should_detect_renames(&deltas(3, 0)));
    assert!(should_detect_renames(&deltas(1, 1)));
    assert!(should_detect_renames(&deltas(500, 500)));
    assert!(!should_detect_renames(&deltas(501, 500)));
}

#[test]
fn a_machine_written_file_is_replaced_whole() {
    let binding = Some(FileBinding { inode: 1, change: 2, pos: 3 });
    let record = record_generated_full_replace(
        "Cargo.lock",
        &b"a\nb\nc".to_vec(),
        &b"x\ny\n".to_vec(),
        binding,
    );
    assert_eq!(record.kind, DetectionKind::Modified);
    assert_eq!(record.binding, binding);
    assert_eq!(record.old_line_count, 2);
    assert!(record.opaque_generated);
    match record.hunk {
        WholeFileHunk::Replace { deleted_lines, new_lines, start, end, .. } => {
            assert_eq!(deleted_lines, vec![0, 1, 2]);
            assert_eq!(new_lines, 3);
            assert_eq!((start, end), (0, 5));
        }
        other => panic!("unexpected hunk {:?}", other),
    }
}

#[test]
fn an_added_text_file_is_recorded_line_by_line() {
    let content = b"a\nb".to_vec();
    let record = record_git_import_add_linewise("p", &content, Encoding::Utf8).unwrap();
    assert_eq!(record.stats.map(|s| (s.files_added, s.lines_added)), Some((1, 2)));
    assert!(matches!(record.hunk, WholeFileHunk::Edit { start: 0, end: 3, .. }));
    match record.file_ops {
        Some(FileOps::Created { lines, encoding, .. }) => {
            assert_eq!(encoding, Some(Encoding::Utf8));
            assert_eq!(lines.len(), 2);
            assert_eq!((lines[0].after, lines[1].after), (None, Some(0)));
            assert_eq!((lines[0].line, lines[1].line), (1, 2));
            assert!(lines[0].content.is_none());
        }
        other => panic!("unexpected file ops {:?}", other),
    }
    assert!(record_git_import_add_linewise("p", &content, Encoding::Binary).is_none());
}

#[test]
fn a_diffed_file_is_recorded_with_its_diff() {
    let content = b"a\nb".to_vec();
    let record =
        record_git_diff_add_fast("p", &content, Encoding::Utf8, 4, DetectionKind::Modified)
            .unwrap();
    assert_eq!(record.kind, DetectionKind::Modified);
    assert!(matches!(record.file_ops, Some(FileOps::FromDiff { file: 4, .. })));
    assert!(record_git_diff_add_fast("p", &content, Encoding::Binary, 4, DetectionKind::Added)
        .is_none());
}
