use std::time::{Duration, Instant};

use atomic_git::commit::{FileOperation, ParsedCommit, ParsedFile};
use atomic_git::error::CliError;
use atomic_git::graph::Encoding;
use atomic_git::line_units::GitDiffLine;
use atomic_git::message::Merkle;
use atomic_git::oid::{
    hex_bytes, hex_of, is_full_oid, oid_bytes_as_hex, tagged_oid_from_hex, tagged_oid_hex,
};
use atomic_git::parse::{
    canonical_git_mode, extract_commit_metadata, file_of_delta, file_of_gitlink, file_of_status,
    keeps_diff_line, merge_files, needs_escaping, normalize_files, parse_commit,
    parse_diff_files, parse_diff_files_via_git_cli, parse_name_status, plan_delta, short_sha,
    CommitFacts, DeltaFacts, DeltaPlan, DeltaStatus, FileContents, GitFileMode, ObservedDelta,
    SideDelta, Signature, StatusContents,
};
use atomic_git::push::GitHashAlgorithm;
use atomic_git::tree::{
    import_expected_tree_oid, repository_entries_from_git_tree, repository_mode,
    validate_import_tree_capabilities, InodeKind, ObjectKind, PathVerdict,
    ProspectiveProjectTree, RepositoryEntry, TreeEntry,
};

fn git_message(error: CliError) -> String {
    match error {
        CliError::GitError { message } => message,
        other => panic!("expected a Git error, got {:?}", other),
    }
}

fn blob(name: &str, mode: u32, bytes: &[u8], excluded: bool) -> TreeEntry {
    TreeEntry {
        name: name.as_bytes().to_vec(),
        display: name.to_string(),
        kind: ObjectKind::Blob,
        mode,
        oid: git2::Oid::hash_object(git2::ObjectType::Blob, bytes).unwrap().as_bytes().to_vec(),
        excluded,
        bytes: bytes.to_vec(),
        children: vec![],
    }
}

fn dir(name: &str, excluded: bool, children: Vec<TreeEntry>) -> TreeEntry {
    TreeEntry {
        name: name.as_bytes().to_vec(),
        display: name.to_string(),
        kind: ObjectKind::Tree,
        mode: 0o040000,
        oid: vec![0; 20],
        excluded,
        bytes: vec![],
        children,
    }
}

#[test]
fn the_expected_tree_is_the_one_that_git_writes() {
    let temp = tempfile::TempDir::new().unwrap();
    let repo = git2::Repository::init(temp.path()).unwrap();
    let one = repo.blob(b"one\n").unwrap();
    let mut below = repo.treebuilder(None).unwrap();
    below.insert("x", one, 0o100755).unwrap();
    let below = below.write().unwrap();
    let mut top = repo.treebuilder(None).unwrap();
    top.insert("lib", below, 0o040000).unwrap();
    top.insert("lib.rs", one, 0o100644).unwrap();
    top.insert("lib-a", one, 0o100644).unwrap();
    let expected = top.write().unwrap();
    let entries = vec![
        dir("lib", false, vec![blob("x", 0o100755, b"one\n", false)]),
        blob("lib.rs", 0o100644, b"one\n", false),
        blob("lib-a", 0o100644, b"one\n", false),
        dir(".atomic", true, vec![blob("y", 0o100644, b"two", false)]),
        dir("hollow", false, vec![blob("z", 0o100644, b"two", true)]),
    ];
    let found = import_expected_tree_oid(&entries, GitHashAlgorithm::Sha1).unwrap();
    assert_eq!(found.algorithm, GitHashAlgorithm::Sha1);
    assert_eq!(found.bytes, expected.as_bytes());
}

#[test]
fn a_tree_without_entries_has_its_well_known_id() {
    assert_eq!(
        tagged_oid_hex(&import_expected_tree_oid(&vec![], GitHashAlgorithm::Sha1).unwrap()),
        "4b825dc642cb6eb9a060e54bf8d69288fbee4904"
    );
}

#[test]
fn a_tree_of_another_algorithm_has_no_expected_id() {
    let expect = |entries: Vec<TreeEntry>| {
        git_message(import_expected_tree_oid(&entries, GitHashAlgorithm::Sha256).unwrap_err())
    };
    // An id of the wrong width is refused first, but for what is excluded.
    assert!(expect(vec![blob("a", 0o100644, b"", false)])
        .starts_with("Git tree entry OID is invalid: "));
    let unhashed = "cannot hash expected Git tree: libgit2 hashes no SHA-256 objects";
    assert_eq!(expect(vec![blob("a", 0o100644, b"", true)]), unhashed);
    assert_eq!(expect(vec![]), unhashed);
    let mut wide = blob("a", 0o100644, b"", false);
    wide.oid = vec![7; 32];
    assert_eq!(expect(vec![wide]), unhashed);
    let mut short = blob("a", 0o100644, b"", false);
    short.oid = vec![7; 3];
    assert!(git_message(
        import_expected_tree_oid(&vec![short], GitHashAlgorithm::Sha1).unwrap_err()
    )
    .starts_with("Git tree entry OID is invalid: "));
}

#[test]
fn what_an_import_cannot_preserve_is_refused() {
    let odd = blob("odd", 0o100664, b"", false);
    let entries = vec![blob("fine", 0o120000, b"", false), dir("d", false, vec![odd])];
    assert_eq!(
        git_message(validate_import_tree_capabilities(&entries, "").unwrap_err()),
        "Git import cannot preserve required mode/kind 0o100664 at 'd/odd'"
    );
    let mut link = blob("sub", 0o160000, b"", false);
    link.kind = ObjectKind::Commit;
    assert!(validate_import_tree_capabilities(&vec![link], "").is_ok());
    let mut other = blob("tag", 0o100644, b"", false);
    other.kind = ObjectKind::Other;
    assert!(validate_import_tree_capabilities(&vec![other], "a/b").is_err());
}

#[test]
fn the_entries_of_a_tree_are_listed_with_their_paths() {
    let entries = vec![
        dir("d", false, vec![blob("x", 0o100755, b"1", false)]),
        blob("l", 0o120000, b"target", true),
    ];
    let listed =
        repository_entries_from_git_tree(&entries, "", GitHashAlgorithm::Sha1).unwrap();
    let mut rows: Vec<(String, u32, InodeKind, bool)> =
        listed.iter().map(|e| (e.path.clone(), e.mode, e.kind, e.excluded)).collect();
    rows.sort_by(|a, b| a.0.cmp(&b.0));
    assert_eq!(
        rows,
        vec![
            ("d/x".to_string(), 0o755, InodeKind::Regular, false),
            ("l".to_string(), 0o777, InodeKind::Symlink, true),
        ]
    );
    let odd = vec![blob("odd", 0o100600, b"", false)];
    assert_eq!(
        git_message(
            repository_entries_from_git_tree(&odd, "", GitHashAlgorithm::Sha1).unwrap_err()
        ),
        "unsupported parent-tree Git mode 0o100600 at 'odd'"
    );
    let mut other = blob("tag", 0o100644, b"", false);
    other.kind = ObjectKind::Other;
    assert_eq!(
        git_message(
            repository_entries_from_git_tree(&vec![other], "", GitHashAlgorithm::Sha1)
                .unwrap_err()
        ),
        "Git tree entry 'tag' has an unsupported object kind"
    );
}

#[test]
fn a_submodule_of_a_tree_is_listed_by_its_commit() {
    let mut link = blob("sub", 0o160000, b"", false);
    link.kind = ObjectKind::Commit;
    let hex = hex_of(&link.oid);
    let listed = repository_entries_from_git_tree(
        &vec![dir("d", false, vec![link])],
        "",
        GitHashAlgorithm::Sha1,
    )
    .unwrap();
    assert_eq!(listed.len(), 1);
    assert_eq!(listed[0].path, "d/sub");
    assert_eq!(listed[0].kind, InodeKind::Gitlink);
    assert_eq!(listed[0].mode, 0o644);
    assert_eq!(listed[0].bytes, hex.as_bytes());
    assert_eq!(tagged_oid_hex(listed[0].gitlink.as_ref().unwrap()), hex);
    // A commit under another mode is no submodule.
    let mut odd = blob("sub", 0o100644, b"", false);
    odd.kind = ObjectKind::Commit;
    assert_eq!(
        git_message(
            repository_entries_from_git_tree(&vec![odd], "", GitHashAlgorithm::Sha1).unwrap_err()
        ),
        "Git tree entry 'sub' has an unsupported object kind"
    );
}

fn file(path: &str, operation: FileOperation, content: Option<&[u8]>, mode: u32) -> ParsedFile {
    ParsedFile {
        path: path.to_string(),
        operation,
        new_content: content.map(|c| c.to_vec()),
        old_content: None,
        diff_lines: None,
        old_path: None,
        new_mode: Some(mode),
        new_encoding: Encoding::Utf8,
        old_encoding: None,
    }
}

fn fine(n: usize) -> Vec<PathVerdict> {
    (0..n).map(|_| PathVerdict { invalid: None, old_invalid: None, excluded: false }).collect()
}

fn entry(path: &str, bytes: &[u8]) -> RepositoryEntry {
    RepositoryEntry {
        path: path.to_string(),
        bytes: bytes.to_vec(),
        mode: 0o644,
        kind: InodeKind::Regular,
        gitlink: None,
        excluded: false,
    }
}

fn held(project: &ProspectiveProjectTree, path: &str) -> Option<Vec<u8>> {
    project.tree.entries.get(path).map(|e| e.bytes.clone())
}

/// A commit with these files, on a parent with this tree.
fn changing(parent_tree: Option<&str>, tree: &str, files: Vec<ParsedFile>) -> ParsedCommit {
    let p = person(None, b"");
    let mut commit = parse_commit(CommitFacts {
        sha: "sha".to_string(),
        author: person(None, b""),
        committer: p,
        now: 0,
        message: "x".to_string(),
        state: None,
        files,
        fallback: vec![],
        sides: vec![],
        parents: vec![],
        parent_index: None,
        committer_time: 0,
        tree: tree.to_string(),
        parent_tree: None,
        raw_object: vec![],
    });
    commit.parent_tree_oid = parent_tree.map(|t| t.to_string());
    commit
}

#[test]
fn a_commit_is_applied_to_the_state_of_its_parent() {
    let mut moved = file("new", FileOperation::Renamed, Some(b"m"), 0o100644);
    moved.old_path = Some("old".to_string());
    let files = vec![
        file("a", FileOperation::Added, Some(b"x"), 0o100755),
        file("gone", FileOperation::Deleted, None, 0),
        moved,
    ];
    let parent = || vec![entry("gone", b"g"), entry("old", b"o"), entry("kept", b"k")];
    let commit = changing(Some("t0"), "t1", files);
    let mut project = ProspectiveProjectTree::new(None);
    assert_eq!(project.missing_tree(&commit), Some("t0".to_string()));
    project.apply_commit(&commit, Some(parent()), &fine(3)).unwrap();
    assert_eq!(held(&project, "a"), Some(b"x".to_vec()));
    assert_eq!(project.tree.entries.get("a").unwrap().mode, 0o755);
    assert_eq!(held(&project, "kept"), Some(b"k".to_vec()));
    assert_eq!(held(&project, "new"), Some(b"m".to_vec()));
    assert_eq!(held(&project, "gone"), None);
    assert_eq!(held(&project, "old"), None);
    project.keep("t1");
    // A root starts from nothing.
    let root = changing(
        None,
        "t2",
        vec![file("r", FileOperation::Added, Some(b"r"), 0o100644)],
    );
    assert_eq!(project.missing_tree(&root), None);
    project.apply_commit(&root, None, &fine(1)).unwrap();
    assert_eq!(held(&project, "kept"), None);
    assert_eq!(held(&project, "r"), Some(b"r".to_vec()));
    // A kept state stands for its tree, whatever was applied since.
    let next = changing(Some("t1"), "t3", vec![]);
    assert_eq!(project.missing_tree(&next), None);
    project.apply_commit(&next, Some(vec![entry("stale", b"s")]), &vec![]).unwrap();
    assert_eq!(held(&project, "a"), Some(b"x".to_vec()));
    assert_eq!(held(&project, "stale"), None);
    assert_eq!(held(&project, "r"), None);
    // So does what the target view projects.
    let mut known = ProspectiveProjectTree::new(Some(("t0".to_string(), parent())));
    assert_eq!(known.missing_tree(&commit), None);
    known.apply_commit(&commit, None, &fine(3)).unwrap();
    assert_eq!(held(&known, "kept"), Some(b"k".to_vec()));
    assert_eq!(held(&known, "a"), Some(b"x".to_vec()));
}

#[test]
fn a_commit_applied_again_leaves_what_it_left() {
    let mut moved = file("new", FileOperation::Renamed, Some(b"m"), 0o100644);
    moved.old_path = Some("old".to_string());
    let files = vec![moved, file("old", FileOperation::Deleted, None, 0)];
    // The commit leaves the tree that it starts from.
    let commit = changing(Some("t0"), "t0", files);
    let start = vec![entry("kept", b"k"), entry("old", b"o")];
    let mut project = ProspectiveProjectTree::new(Some(("t0".to_string(), start)));
    for _ in 0..2 {
        project.apply_commit(&commit, None, &fine(2)).unwrap();
        project.keep("t0");
        assert_eq!(project.tree.entries.entries.len(), 2);
        assert_eq!(project.entry("kept").unwrap().bytes, b"k");
        assert_eq!(project.entry("new").unwrap().bytes, b"m");
        assert!(project.entry("old").is_none());
    }
    // One that is refused leaves what was there.
    let refused = changing(Some("t9"), "t1", vec![]);
    assert!(project.apply_commit(&refused, None, &vec![]).is_err());
    assert_eq!(project.entry("new").unwrap().bytes, b"m");
}

#[test]
fn a_commit_that_cannot_be_applied_is_refused() {
    let apply = |parent: Option<&str>, f: ParsedFile, verdicts: Vec<PathVerdict>| {
        let mut project = ProspectiveProjectTree::new(None);
        let commit = changing(parent, "t", vec![f]);
        git_message(project.apply_commit(&commit, None, &verdicts).unwrap_err())
    };
    let added = |content: Option<&[u8]>, mode: u32| {
        file("p", FileOperation::Added, content, mode)
    };
    assert_eq!(
        apply(Some("unknown"), added(Some(b""), 0o100644), fine(1)),
        "commit's parent tree is not cached and no Git object database is available to reconstruct it; refusing to fold a prospective state from stale ambient entries"
    );
    assert_eq!(
        apply(None, added(None, 0o100644), fine(1)),
        "commit sha omitted bytes for 'p'"
    );
    let mut no_mode = added(Some(b""), 0);
    no_mode.new_mode = None;
    assert_eq!(apply(None, no_mode, fine(1)), "commit sha omitted mode for 'p'");
    assert_eq!(
        apply(None, added(Some(b""), 0o040000), fine(1)),
        "unsupported prospective Git mode 0o40000 at 'p'"
    );
    let mut bad = fine(1);
    bad[0].invalid = Some("no".to_string());
    assert_eq!(
        apply(None, added(Some(b""), 0o100644), bad),
        "invalid Git path 'p': no"
    );
    let mut moved = file("p", FileOperation::Renamed, Some(b""), 0o100644);
    moved.old_path = Some("q".to_string());
    let mut bad = fine(1);
    bad[0].old_invalid = Some("no".to_string());
    assert_eq!(apply(None, moved, bad), "invalid Git path 'q': no");
    assert_eq!(
        apply(None, added(Some(b"xyz"), 0o160000), fine(1)),
        "invalid gitlink target 'p'"
    );
    assert_eq!(
        apply(None, added(Some(b"\xff\xfe"), 0o160000), fine(1)),
        "invalid gitlink target 'p': invalid utf-8 sequence of 1 bytes from index 0"
    );
}

#[test]
fn a_submodule_entry_names_its_commit() {
    let id = "00112233445566778899aabbccddeeff00112233";
    let f = file("sub", FileOperation::Added, Some(id.as_bytes()), 0o160000);
    let mut project = ProspectiveProjectTree::new(None);
    project.apply_commit(&changing(None, "t", vec![f]), None, &fine(1)).unwrap();
    let e = project.tree.entries.get("sub").unwrap();
    assert_eq!(e.kind, InodeKind::Gitlink);
    assert_eq!(tagged_oid_hex(e.gitlink.as_ref().unwrap()), id);
}

/// The tree that Git writes for files of one directory.
fn written_root(repo: &git2::Repository, files: &Vec<(String, Vec<u8>)>) -> git2::Oid {
    let mut below = repo.treebuilder(None).unwrap();
    for (path, bytes) in files {
        let name = path.strip_prefix("src/").unwrap();
        below.insert(name, repo.blob(bytes).unwrap(), 0o100644).unwrap();
    }
    let below = below.write().unwrap();
    let mut top = repo.treebuilder(None).unwrap();
    top.insert("src", below, 0o040000).unwrap();
    top.write().unwrap()
}

#[test]
fn warm_prospective_preflight_is_deterministic_and_millisecond_scale() {
    let temp = tempfile::TempDir::new().unwrap();
    let repo = git2::Repository::init_bare(temp.path()).unwrap();
    let mut files: Vec<(String, Vec<u8>)> = (0..2_000)
        .map(|index| {
            (
                format!("src/file-{index:04}.rs"),
                format!("pub const VALUE_{index}: usize = {index};\n").into_bytes(),
            )
        })
        .collect();
    let entries: Vec<RepositoryEntry> =
        files.iter().map(|(path, bytes)| entry(path, bytes)).collect();
    let baseline = written_root(&repo, &files).to_string();
    let changed = b"pub const VALUE_1000: usize = 42;\n";
    files[1_000].1 = changed.to_vec();
    let expected = written_root(&repo, &files);
    let parsed = changing(
        Some(baseline.as_str()),
        &expected.to_string(),
        vec![file("src/file-1000.rs", FileOperation::Modified, Some(&changed[..]), 0o100644)],
    );
    let state = |project: &ProspectiveProjectTree| -> Vec<(String, Vec<u8>)> {
        project.tree.entries.entries.iter().map(|(p, e)| (p.clone(), e.bytes.clone())).collect()
    };

    let mut prospective = ProspectiveProjectTree::new(Some((baseline, entries)));
    let started = Instant::now();
    prospective.apply_commit(&parsed, None, &fine(1)).unwrap();
    let elapsed = started.elapsed();
    let first = state(&prospective);
    prospective.keep(&parsed.tree_oid);
    prospective.apply_commit(&parsed, None, &fine(1)).unwrap();
    let second = state(&prospective);
    assert_eq!(first, second);
    assert_eq!(written_root(&repo, &first), written_root(&repo, &second));
    assert_eq!(written_root(&repo, &first), expected);
    assert!(
        elapsed < Duration::from_millis(500),
        "warm prospective preflight took {elapsed:?}"
    );
}

#[test]
fn modes_are_brought_to_their_canonical_form() {
    assert_eq!(canonical_git_mode(GitFileMode::Blob), 0o100644);
    assert_eq!(canonical_git_mode(GitFileMode::BlobGroupWritable), 0o100644);
    assert_eq!(canonical_git_mode(GitFileMode::BlobExecutable), 0o100755);
    assert_eq!(canonical_git_mode(GitFileMode::Link), 0o120000);
    assert_eq!(canonical_git_mode(GitFileMode::Commit), 0o160000);
    assert_eq!(canonical_git_mode(GitFileMode::Tree), 0o040000);
    assert_eq!(canonical_git_mode(GitFileMode::Unreadable), 0);
    assert_eq!(repository_mode(0o160000), Some((InodeKind::Gitlink, 0o644)));
    assert_eq!(repository_mode(0o040000), None);
}

fn delta(status: DeltaStatus, new: Option<&str>, old: Option<&str>) -> DeltaFacts {
    DeltaFacts {
        status,
        new_mode: GitFileMode::Blob,
        old_mode: GitFileMode::Blob,
        new_path: new.map(|p| p.to_string()),
        old_path: old.map(|p| p.to_string()),
    }
}

#[test]
fn a_delta_becomes_a_file_or_a_submodule_entry() {
    match plan_delta(&delta(DeltaStatus::Renamed, Some("n"), Some("o"))).unwrap() {
        DeltaPlan::File { path, operation, old_path } => {
            assert_eq!(path, "n");
            assert_eq!(operation, FileOperation::Renamed);
            assert_eq!(old_path.as_deref(), Some("o"));
        }
        other => panic!("unexpected plan {:?}", other),
    }
    match plan_delta(&delta(DeltaStatus::Typechange, Some("n"), Some("n"))).unwrap() {
        DeltaPlan::File { operation, old_path, .. } => {
            assert_eq!(operation, FileOperation::Modified);
            assert_eq!(old_path, None);
        }
        other => panic!("unexpected plan {:?}", other),
    }
    assert!(matches!(
        plan_delta(&delta(DeltaStatus::Other, Some("n"), None)).unwrap(),
        DeltaPlan::Skip
    ));
    let mut link = delta(DeltaStatus::Deleted, None, Some("sub"));
    link.old_mode = GitFileMode::Commit;
    assert!(matches!(
        plan_delta(&link).unwrap(),
        DeltaPlan::Gitlink { path, operation: FileOperation::Deleted } if path == "sub"
    ));
    link.status = DeltaStatus::Added;
    assert!(matches!(plan_delta(&link).unwrap(), DeltaPlan::Skip));
    link.status = DeltaStatus::Copied;
    link.new_path = Some("sub".to_string());
    assert_eq!(
        git_message(plan_delta(&link).unwrap_err()),
        "unsupported delta status for gitlink path 'sub'"
    );
}

fn contents(new: Option<&[u8]>, old: Option<&[u8]>) -> FileContents {
    FileContents {
        new_content: new.map(|c| c.to_vec()),
        old_content: old.map(|c| c.to_vec()),
        diff_lines: Some(vec![GitDiffLine {
            origin: '+',
            content: b"x".to_vec(),
            old_lineno: None,
            new_lineno: Some(1),
        }]),
        new_encoding: Encoding::Utf8,
        old_encoding: None,
    }
}

#[test]
fn a_file_keeps_the_sides_that_it_has() {
    let make = |operation: FileOperation| {
        file_of_delta(
            "p".to_string(),
            operation,
            None,
            GitFileMode::BlobExecutable,
            contents(Some(b"n"), Some(b"o")),
        )
    };
    let added = make(FileOperation::Added);
    assert_eq!(added.new_content.as_deref(), Some(&b"n"[..]));
    assert_eq!(added.old_content, None);
    assert_eq!(added.new_mode, Some(0o100755));
    let deleted = make(FileOperation::Deleted);
    assert_eq!(deleted.new_content, None);
    assert_eq!(deleted.old_content.as_deref(), Some(&b"o"[..]));
    assert_eq!(deleted.new_mode, None);
    assert_eq!(deleted.diff_lines.map(|l| l.len()), Some(1));
}

#[test]
fn a_submodule_becomes_a_file_that_names_it() {
    let id = vec![0xab; 20];
    let f = file_of_gitlink(
        "sub".to_string(),
        FileOperation::Modified,
        &id,
        &Some(vec![0x01; 20]),
        Encoding::Utf8,
        None,
    )
    .unwrap();
    assert_eq!(f.new_content.as_deref(), Some("ab".repeat(20).as_bytes()));
    assert_eq!(f.old_content.as_deref(), Some("01".repeat(20).as_bytes()));
    assert_eq!(f.new_mode, Some(0o160000));
}

#[test]
fn a_path_deleted_and_added_again_is_modified() {
    let mut deleted = file("p", FileOperation::Deleted, None, 0);
    deleted.old_content = Some(b"old".to_vec());
    let files = vec![
        deleted,
        file("q", FileOperation::Added, Some(b"q"), 0o100644),
        file("p", FileOperation::Added, Some(b"new"), 0o120000),
    ];
    let normal = normalize_files(files);
    assert_eq!(normal.len(), 2);
    assert_eq!(normal[0].operation, FileOperation::Modified);
    assert_eq!(normal[0].old_content.as_deref(), Some(&b"old"[..]));
    assert_eq!(normal[0].new_content.as_deref(), Some(&b"new"[..]));
    assert_eq!(normal[0].new_mode, Some(0o120000));
    assert_eq!(normal[1].path, "q");
}

#[test]
fn status_lines_name_their_files() {
    let lines =
        parse_name_status("A\ta\nR100\told\tnew\nX\tx\nD\td\n\nM\nC75\tfrom\tto\nT\tt");
    let rows: Vec<(FileOperation, &str, Option<&str>)> =
        lines.iter().map(|l| (l.operation, l.path.as_str(), l.old_path.as_deref())).collect();
    assert_eq!(
        rows,
        vec![
            (FileOperation::Added, "a", None),
            (FileOperation::Renamed, "new", Some("old")),
            (FileOperation::Deleted, "d", None),
            (FileOperation::Copied, "to", Some("from")),
        ]
    );
    let mut lines = lines;
    let deleted = lines.remove(2);
    let f = file_of_status(deleted, Some(0o100644), contents(Some(b"n"), Some(b"o")));
    assert_eq!(f.new_content, None);
    assert_eq!(f.new_mode, None);
    assert_eq!(f.old_content.as_deref(), Some(&b"o"[..]));
    assert!(f.diff_lines.is_none());
}

fn observed(
    status: DeltaStatus,
    new_path: Option<&str>,
    old_path: Option<&str>,
    mode: GitFileMode,
    lines: &[(char, &[u8])],
) -> ObservedDelta {
    ObservedDelta {
        facts: DeltaFacts {
            status,
            new_mode: mode,
            old_mode: GitFileMode::Blob,
            new_path: new_path.map(|p| p.to_string()),
            old_path: old_path.map(|p| p.to_string()),
        },
        new_id: vec![0xab; 20],
        old_id: None,
        new_content: Some(b"n".to_vec()),
        old_content: Some(b"o".to_vec()),
        new_encoding: Encoding::Utf8,
        old_encoding: None,
        lines: lines
            .iter()
            .map(|(origin, content)| GitDiffLine {
                origin: *origin,
                content: content.to_vec(),
                old_lineno: None,
                new_lineno: None,
            })
            .collect(),
    }
}

#[test]
fn the_files_of_a_diff_come_from_its_deltas() {
    let files = parse_diff_files(vec![
        observed(DeltaStatus::Modified, Some("a"), Some("a"), GitFileMode::Blob, &[
            ('-', b"o\n"),
            ('+', b"n\n"),
            ('>', b"no newline"),
        ]),
        observed(DeltaStatus::Other, Some("ignored"), None, GitFileMode::Blob, &[]),
        observed(DeltaStatus::Added, Some("sub"), None, GitFileMode::Commit, &[]),
        observed(DeltaStatus::Renamed, Some("new"), Some("old"), GitFileMode::Blob, &[]),
        // A change of kind: its lines all go to the first delta of the path.
        observed(DeltaStatus::Deleted, Some("k"), Some("k"), GitFileMode::Blob, &[('-', b"x")]),
        observed(DeltaStatus::Added, Some("k"), Some("k"), GitFileMode::Link, &[('+', b"y")]),
    ])
    .unwrap();
    let rows: Vec<(&str, FileOperation, Option<u32>)> =
        files.iter().map(|f| (f.path.as_str(), f.operation, f.new_mode)).collect();
    assert_eq!(
        rows,
        vec![
            ("a", FileOperation::Modified, Some(0o100644)),
            ("sub", FileOperation::Added, Some(0o160000)),
            ("new", FileOperation::Renamed, Some(0o100644)),
            ("k", FileOperation::Modified, Some(0o120000)),
        ]
    );
    let origins = |f: &ParsedFile| -> Option<String> {
        f.diff_lines.as_ref().map(|ls| ls.iter().map(|l| l.origin).collect())
    };
    assert_eq!(origins(&files[0]), Some("-+".to_string()));
    assert_eq!(origins(&files[2]), None);
    assert_eq!(origins(&files[3]), Some("-+".to_string()));
    assert_eq!(files[1].new_content.as_deref(), Some("ab".repeat(20).as_bytes()));
    assert_eq!(files[2].old_path.as_deref(), Some("old"));
    let refused = parse_diff_files(vec![observed(
        DeltaStatus::Copied,
        Some("sub"),
        None,
        GitFileMode::Commit,
        &[],
    )]);
    assert!(matches!(
        refused,
        Err(CliError::GitError { message })
            if message == "unsupported delta status for gitlink path 'sub'"
    ));
}

#[test]
fn the_files_of_a_diff_come_from_its_status_lines() {
    let found = |mode: Option<u32>| StatusContents {
        new_mode: mode,
        contents: contents(Some(b"n"), Some(b"o")),
    };
    let files = parse_diff_files_via_git_cli(
        "A\ta\nD\td\nR90\told\tnew\n",
        vec![found(Some(0o100755)), found(None), found(Some(0o100644))],
    );
    assert_eq!(files.len(), 3);
    assert_eq!(files[0].new_mode, Some(0o100755));
    assert_eq!(files[0].old_content, None);
    assert_eq!(files[1].operation, FileOperation::Deleted);
    assert_eq!(files[1].new_content, None);
    assert_eq!(files[2].old_path.as_deref(), Some("old"));
    assert_eq!(files[2].old_content.as_deref(), Some(&b"o"[..]));
}

fn side(path: &str, present: bool) -> SideDelta {
    SideDelta {
        gitlink: false,
        path: path.to_string(),
        present,
        content: Some(b"merged".to_vec()),
        mode: Some(0o100644),
        encoding: Encoding::Utf8,
    }
}

#[test]
fn a_merge_names_each_path_once_in_order() {
    let first = vec![
        file("z", FileOperation::Added, Some(b"z"), 0o100644),
        file("b", FileOperation::Modified, Some(b"b"), 0o100644),
    ];
    let mut link = side("sub", true);
    link.gitlink = true;
    let merged = merge_files(first, vec![side("b", true), side("a", false), link]);
    let rows: Vec<(&str, FileOperation)> =
        merged.iter().map(|f| (f.path.as_str(), f.operation)).collect();
    assert_eq!(
        rows,
        vec![
            ("a", FileOperation::Deleted),
            ("b", FileOperation::Modified),
            ("z", FileOperation::Added),
        ]
    );
    assert_eq!(merged[1].new_content.as_deref(), Some(&b"merged"[..]));
    assert_eq!(merged[0].new_content, None);
}

fn person(name: Option<&str>, email: &[u8]) -> Signature {
    Signature {
        name: name.map(|n| n.to_string()),
        email: None,
        name_bytes: b"raw".to_vec(),
        email_bytes: email.to_vec(),
        seconds: 100,
        offset_minutes: -90,
    }
}

#[test]
fn the_metadata_of_a_commit_keep_its_raw_people() {
    let m = extract_commit_metadata(
        &person(Some("Ann"), b"a@b"),
        &person(None, b""),
        1_700_000_000,
        7,
        "Subject\n\nBody\n",
    );
    assert_eq!(m.author_name, "Ann");
    assert_eq!(m.author_email_raw.as_deref(), Some(&b"a@b"[..]));
    assert_eq!(m.committer_name, "Unknown");
    assert_eq!(m.committer_email_raw, None);
    assert_eq!(m.author_time_offset_seconds, -5400);
    assert_eq!(m.timestamp, 1_700_000_000);
    assert_eq!(m.message, "Subject");
    assert_eq!(m.description.as_deref(), Some("Body"));
}

#[test]
fn a_time_that_is_no_date_is_replaced() {
    let time = |seconds: i64| {
        let p = person(None, b"");
        extract_commit_metadata(&p, &p, seconds, 7, "x").timestamp
    };
    assert_eq!(time(0), 0);
    assert_eq!(time(8_210_266_876_799), 8_210_266_876_799);
    assert_eq!(time(8_210_266_876_800), 7);
    assert_eq!(time(-8_334_601_228_800), -8_334_601_228_800);
    assert_eq!(time(-8_334_601_228_801), 7);
    assert_eq!(time(i64::MIN), 7);
    assert_eq!(time(i64::MAX), 7);
}

#[test]
fn a_commit_is_put_together_from_what_was_read() {
    let facts = |files: Vec<ParsedFile>, fallback: Vec<ParsedFile>, parents: usize| {
        CommitFacts {
            sha: "0123456789abcdef".to_string(),
            author: person(Some("Ann"), b"a@b"),
            committer: person(None, b""),
            now: 7,
            message: "Subject\n\nBody\n\nAtomic-View: dev\nAtomic-State: STATE\n".to_string(),
            state: Some(Merkle { hi: 1, lo: 2 }),
            files,
            fallback,
            sides: vec![side("s", true)],
            parents: (0..parents).map(|i| i.to_string()).collect(),
            parent_index: Some(3),
            committer_time: 5,
            tree: "t".to_string(),
            parent_tree: None,
            raw_object: b"raw".to_vec(),
        }
    };
    let one = || vec![file("a", FileOperation::Added, Some(b""), 0o100644)];
    let root = parse_commit(facts(vec![], one(), 0));
    assert!(root.is_empty && !root.is_merge);
    assert_eq!(root.parent_index, None);
    assert_eq!(root.short_sha, "01234567");
    assert_eq!(root.metadata.author_name, "Ann");
    assert_eq!(root.metadata.committer_name, "Unknown");
    assert_eq!(root.metadata.message, "Subject");
    assert_eq!(root.metadata.timestamp, 5);
    let trailer = root.push_trailer.unwrap();
    assert_eq!(trailer.view, "dev");
    assert_eq!(trailer.state, Merkle { hi: 1, lo: 2 });
    // A state that does not decode, or a message that says more, is no push.
    let mut undecoded = facts(vec![], one(), 0);
    undecoded.state = None;
    assert!(parse_commit(undecoded).push_trailer.is_none());
    let mut said = facts(vec![], one(), 0);
    said.message = "Subject".to_string();
    assert!(parse_commit(said).push_trailer.is_none());
    let mut dateless = facts(vec![], one(), 0);
    dateless.committer_time = i64::MAX;
    assert_eq!(parse_commit(dateless).metadata.timestamp, 7);
    let plain = parse_commit(facts(vec![], one(), 1));
    assert_eq!(plain.files.len(), 1);
    assert_eq!(plain.parent_index, Some(3));
    let merge = parse_commit(facts(one(), vec![], 2));
    assert!(merge.is_merge && !merge.is_empty);
    assert_eq!(merge.files.len(), 2);
}

#[test]
fn short_ids_keep_eight_characters() {
    assert_eq!(short_sha("abc"), "abc");
    assert_eq!(short_sha("0123456789"), "01234567");
}

#[test]
fn only_plain_paths_need_no_escaping() {
    assert!(!needs_escaping(b"src/main.rs"));
    assert!(needs_escaping(b"a b"));
    assert!(needs_escaping(b"100%"));
    assert!(needs_escaping(b"\xff"));
    assert!(!needs_escaping(b""));
}

#[test]
fn only_content_lines_of_a_diff_are_kept() {
    for origin in ['+', '-', ' '] {
        assert!(keeps_diff_line(origin));
    }
    for origin in ['\\', '=', '>', '<', 'F', 'H', 'B'] {
        assert!(!keeps_diff_line(origin));
    }
}

#[test]
fn ids_and_their_texts_round_trip() {
    let text = "00112233445566778899aabbccddeeff00112233";
    let id = tagged_oid_from_hex(text).unwrap();
    assert_eq!(id.algorithm, GitHashAlgorithm::Sha1);
    assert_eq!(tagged_oid_hex(&id), text);
    assert_eq!(oid_bytes_as_hex(&id), text.as_bytes());
    let wide = tagged_oid_from_hex(&"AB".repeat(32)).unwrap();
    assert_eq!(wide.algorithm, GitHashAlgorithm::Sha256);
    assert_eq!(tagged_oid_hex(&wide), "ab".repeat(32));
    assert!(tagged_oid_from_hex("0011").is_none());
    assert!(tagged_oid_from_hex(&"zz".repeat(20)).is_none());
    assert_eq!(hex_bytes(None), "");
    assert_eq!(hex_bytes(Some(&[0x0f, 0xa0])), "0fa0");
    assert!(is_full_oid(text));
    assert!(is_full_oid(&"AB".repeat(32)));
    assert!(!is_full_oid("0011"));
    assert!(!is_full_oid(&"g".repeat(40)));
}
