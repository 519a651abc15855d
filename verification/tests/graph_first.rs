use atomic_git::commit::{CommitMetadata, FileOperation, ParsedCommit, ParsedFile};
use atomic_git::graph::{Atom, ContentHash, Encoding, GraphOp, Position};
use atomic_git::graph_first::{
    build_graph_first_change, build_graph_first_file_ops_for_added_file,
    build_graph_first_skip_reasons, needed_directories, FileOps, SkipReason,
};
use atomic_git::line_index::{ImportLineIndex, LineIndexSeed, SeedLine};
use atomic_git::line_units::{
    count_line_units, current_state_replacements, is_generated_diff_skip_path,
    parse_git_diff_replacements, similarity_bps, split_graph_first_lines, GitDiffLine,
};

fn hash(n: u128) -> ContentHash {
    ContentHash { hi: n, lo: n }
}

fn file(path: &str, operation: FileOperation, content: &[u8]) -> ParsedFile {
    ParsedFile {
        path: path.to_string(),
        operation,
        new_content: Some(content.to_vec()),
        old_content: None,
        diff_lines: None,
        old_path: None,
        new_mode: Some(0o100644),
        new_encoding: Encoding::Utf8,
        old_encoding: None,
    }
}

fn commit_of(files: Vec<ParsedFile>, is_merge: bool) -> ParsedCommit {
    ParsedCommit {
        git_sha: "0123456789abcdef".to_string(),
        short_sha: "01234567".to_string(),
        metadata: CommitMetadata {
            author_name: "Test".to_string(),
            author_email: Some("test@example.com".to_string()),
            author_name_raw: b"Test".to_vec(),
            author_email_raw: Some(b"test@example.com".to_vec()),
            timestamp: 1_700_000_000,
            message: "add".to_string(),
            description: None,
            author_time: 1_700_000_000,
            author_time_offset_seconds: 0,
            committer_name: "Test".to_string(),
            committer_email: Some("test@example.com".to_string()),
            committer_name_raw: b"Test".to_vec(),
            committer_email_raw: Some(b"test@example.com".to_vec()),
            committer_time: 1_700_000_000,
            committer_time_offset_seconds: 0,
        },
        files,
        parent_index: None,
        parent_oids: Vec::new(),
        committer_time: 1_700_000_000,
        is_merge,
        is_empty: false,
        push_trailer: None,
        tree_oid: "0".repeat(40),
        parent_tree_oid: None,
        raw_object: Vec::new(),
    }
}

fn added_commit(path: &str, content: &[u8]) -> ParsedCommit {
    commit_of(vec![file(path, FileOperation::Added, content)], false)
}

fn contents_of(index: &ImportLineIndex, path: &str) -> Vec<Vec<u8>> {
    index.files.get(path).unwrap().lines.iter().map(|l| l.content.clone()).collect()
}

#[test]
fn graph_first_nested_add_uses_parent_inode_anchors_and_dependencies() {
    let parsed = added_commit("src/domain/model.rs", b"pub struct Model;\n");
    let mut line_index = ImportLineIndex::new();
    let change = build_graph_first_change(&parsed, &line_index, true).unwrap();
    let root = Position { change: Some(ContentHash { hi: 0, lo: 0 }), pos: 0 };

    let domain_anchor = match change.hunks.as_slice() {
        [GraphOp::DirAdd { add_name: src_name, add_inode: src_inode, path: src_path }, GraphOp::DirAdd { add_name: domain_name, add_inode: domain_inode, path: domain_path }, GraphOp::FileAdd { add_name: file_name, path: file_path, .. }, ..] =>
        {
            assert_eq!(src_path, "src");
            assert_eq!(domain_path, "src/domain");
            assert_eq!(file_path, "src/domain/model.rs");
            assert_eq!(src_name.predecessors, vec![root]);
            assert_eq!(src_name.inode, root);

            let src_anchor = Position { change: None, pos: src_inode.start };
            assert_eq!(domain_name.predecessors, vec![src_anchor]);
            assert_eq!(domain_name.inode, src_anchor);

            let domain_anchor = Position { change: None, pos: domain_inode.start };
            assert_eq!(file_name.predecessors, vec![domain_anchor]);
            assert_eq!(file_name.inode, domain_anchor);
            domain_anchor
        }
        hunks => panic!("unexpected graph-first topology: {hunks:#?}"),
    };
    assert!(change.dependencies.is_empty());

    let first_hash = hash(77);
    assert!(line_index.apply_line_index_updates(first_hash, &change.pending));
    let second = added_commit("src/domain/service.rs", b"pub struct Service;\n");
    let second_change = build_graph_first_change(&second, &line_index, true).unwrap();
    assert!(!second_change.hunks.iter().any(|op| matches!(op, GraphOp::DirAdd { .. })));
    let parent = second_change
        .hunks
        .iter()
        .find_map(|op| match op {
            GraphOp::FileAdd { add_name, .. } => Some(add_name.predecessors[0]),
            _ => None,
        })
        .unwrap();
    assert_eq!(parent.change, Some(first_hash));
    assert_eq!(parent.pos, domain_anchor.pos);
    assert!(second_change.dependencies.contains(&first_hash));
}

#[test]
fn a_change_seeded_from_its_anchors_depends_on_them() {
    let second = added_commit("src/domain/service.rs", b"git service\n");
    let mut index = ImportLineIndex::new();
    assert_eq!(index.missing_parent_directories(&second.files), vec!["src", "src/domain"]);
    index.seed_missing_parent_directories(&vec![
        ("src".to_string(), hash(5), 3),
        ("src/domain".to_string(), hash(5), 9),
    ]);
    assert!(index.missing_parent_directories(&second.files).is_empty());
    let change = build_graph_first_change(&second, &index, true).unwrap();
    assert!(change.dependencies.contains(&hash(5)));
}

#[test]
fn added_content_stands_where_its_ranges_say() {
    let parsed = added_commit("dir/a.txt", b"one\ntwo\nthree");
    let change = build_graph_first_change(&parsed, &ImportLineIndex::new(), false).unwrap();
    match &change.file_ops[0] {
        FileOps::Created { path, lines, .. } => {
            assert_eq!(path, "dir/a.txt");
            let held: Vec<&[u8]> = lines
                .iter()
                .map(|l| {
                    let (start, end) = l.content_range.unwrap();
                    &change.contents[start as usize..end as usize]
                })
                .collect();
            assert_eq!(held, vec![&b"one\n"[..], b"two\n", b"three"]);
            assert_eq!(lines[0].after, None);
            assert_eq!(lines[2].after, Some(1));
            assert_eq!(lines[1].content.as_deref(), Some(&b"two"[..]));
        }
        other => panic!("unexpected file ops {:?}", other),
    }
}

#[test]
fn an_imported_file_is_followed_through_its_changes() {
    let mut index = ImportLineIndex::new();
    let add = build_graph_first_change(
        &added_commit("a.txt", b"one\ntwo\nthree\n"),
        &index,
        true,
    )
    .unwrap();
    assert!(index.apply_line_index_updates(hash(1), &add.pending));
    assert_eq!(contents_of(&index, "a.txt"), vec![&b"one\n"[..], b"two\n", b"three\n"]);

    // A diff, as Git gives it.
    let mut modified = file("a.txt", FileOperation::Modified, b"zero\none\ntwo\n3\n");
    let line = |origin: char, content: &[u8], old: Option<u32>, new: Option<u32>| GitDiffLine {
        origin,
        content: content.to_vec(),
        old_lineno: old,
        new_lineno: new,
    };
    modified.diff_lines = Some(vec![
        line('+', b"zero\n", None, Some(1)),
        line(' ', b"one\n", Some(1), Some(2)),
        line(' ', b"two\n", Some(2), Some(3)),
        line('-', b"three\n", Some(3), None),
        line('+', b"3\n", None, Some(4)),
    ]);
    let edit = build_graph_first_change(&commit_of(vec![modified], false), &index, true).unwrap();
    assert!(edit.dependencies.contains(&hash(1)));
    assert!(index.apply_line_index_updates(hash(2), &edit.pending));
    assert_eq!(
        contents_of(&index, "a.txt"),
        vec![&b"zero\n"[..], b"one\n", b"two\n", b"3\n"]
    );

    // A merge goes straight to its content.
    let merged = file("a.txt", FileOperation::Modified, b"zero\nmerged\n3\n");
    let merge = build_graph_first_change(&commit_of(vec![merged], true), &index, true).unwrap();
    assert!(index.apply_line_index_updates(hash(3), &merge.pending));
    assert_eq!(contents_of(&index, "a.txt"), vec![&b"zero\n"[..], b"merged\n", b"3\n"]);

    // A rename takes its lines along.
    let mut renamed = file("b.txt", FileOperation::Renamed, b"zero\nmerged\n");
    renamed.old_path = Some("a.txt".to_string());
    let rename = build_graph_first_change(&commit_of(vec![renamed], false), &index, true).unwrap();
    assert!(matches!(rename.hunks[0], GraphOp::FileMove { .. }));
    assert!(index.apply_line_index_updates(hash(4), &rename.pending));
    assert!(index.files.get("a.txt").is_none());
    assert_eq!(contents_of(&index, "b.txt"), vec![&b"zero\n"[..], b"merged\n"]);

    // A machine-written file is replaced in one piece.
    let lock = build_graph_first_change(&added_commit("Cargo.lock", b"a\nb\n"), &index, true)
        .unwrap();
    assert!(index.apply_line_index_updates(hash(5), &lock.pending));
    let relock = build_graph_first_change(
        &commit_of(vec![file("Cargo.lock", FileOperation::Modified, b"c\nd\n")], false),
        &index,
        true,
    )
    .unwrap();
    assert!(index.apply_line_index_updates(hash(6), &relock.pending));
    assert_eq!(contents_of(&index, "Cargo.lock"), vec![&b"c\nd\n"[..]]);

    // A deletion forgets the file.
    let delete = build_graph_first_change(
        &commit_of(vec![file("b.txt", FileOperation::Deleted, b"")], false),
        &index,
        true,
    )
    .unwrap();
    assert_eq!(delete.deleted_paths, vec!["b.txt"]);
    match &delete.hunks[0] {
        GraphOp::Edit { change: Atom::EdgeUpdate(update), .. } => {
            assert_eq!(update.edges.len(), 2);
        }
        other => panic!("unexpected hunk {:?}", other),
    }
    assert!(index.apply_line_index_updates(hash(7), &delete.pending));
    assert!(index.files.get("b.txt").is_none());
}

#[test]
fn what_cannot_be_imported_graph_first_says_why() {
    let index = ImportLineIndex::new();
    let reason = |parsed: &ParsedCommit| {
        let skips = build_graph_first_change(parsed, &index, true).err().unwrap();
        skips.iter().map(|s| s.reason).collect::<Vec<SkipReason>>()
    };
    assert_eq!(reason(&commit_of(vec![], false)), vec![SkipReason::EmptyCommit]);
    assert_eq!(
        reason(&commit_of(vec![file("a", FileOperation::Modified, b"x")], false)),
        vec![SkipReason::ModifiedMissingLineIndex]
    );
    assert_eq!(
        reason(&commit_of(
            vec![
                file("a", FileOperation::Deleted, b""),
                file("b", FileOperation::Renamed, b"x")
            ],
            false
        )),
        vec![SkipReason::DeleteMissingLineIndex, SkipReason::RenameMissingOldPath]
    );
    let skips = build_graph_first_skip_reasons(
        &commit_of(vec![file("a", FileOperation::Modified, b"x")], false),
        &index,
    );
    assert_eq!(skips.len(), 1);
    assert_eq!(skips[0].path, "a");
    assert_eq!(skips[0].reason, SkipReason::ModifiedMissingLineIndex);
}

#[test]
fn directories_are_made_outermost_first_and_once() {
    let files = vec![
        file("x/y/a", FileOperation::Added, b""),
        file("x/b", FileOperation::Copied, b""),
        file("a/c", FileOperation::Added, b""),
        file("m/d", FileOperation::Modified, b""),
    ];
    assert_eq!(needed_directories(&files), vec!["a", "x", "x/y"]);
}

#[test]
fn a_file_of_an_earlier_process_is_seeded_from_the_graph() {
    let mut index = ImportLineIndex::new();
    let seed = Some(LineIndexSeed {
        inode_change: hash(1),
        inode_at: 5,
        lines: vec![
            SeedLine { change: hash(1), start: 5, end: 9, incoming_by: hash(1) },
            SeedLine { change: hash(2), start: 0, end: 4, incoming_by: hash(2) },
        ],
    });
    assert!(index.seed_file_from_graph_content(
        &"a.txt".to_string(),
        b"one\ntwo\n",
        Encoding::Utf8,
        &seed,
        0
    ));
    assert_eq!(contents_of(&index, "a.txt"), vec![&b"one\n"[..], b"two\n"]);
    // A seed that does not fit the content is refused.
    assert!(!index.seed_file_from_graph_content(
        &"b.txt".to_string(),
        b"one\n",
        Encoding::Utf8,
        &seed,
        0
    ));
    assert!(index.files.get("b.txt").is_none());
}

#[test]
fn a_written_change_is_indexed_as_its_pending_updates_are() {
    let mut index = ImportLineIndex::new();
    let change =
        build_graph_first_change(&added_commit("d/a.txt", b"one\ntwo\n"), &index, true).unwrap();
    index.update_from_added_change(hash(1), &change.hunks, &change.contents);
    let mut other = ImportLineIndex::new();
    assert!(other.apply_line_index_updates(hash(1), &change.pending));
    assert_eq!(contents_of(&index, "d/a.txt"), vec![&b"one\n"[..], b"two\n"]);
    let (a, b) = (index.files.get("d/a.txt").unwrap(), other.files.get("d/a.txt").unwrap());
    assert_eq!(a.inode_pos, b.inode_pos);
    assert_eq!(a.lines.len(), b.lines.len());
    for (x, y) in a.lines.iter().zip(b.lines.iter()) {
        assert_eq!((x.change, x.start, x.end), (y.change, y.start, y.end));
    }
    assert_eq!(index.directories.get("d").copied(), other.directories.get("d").copied());
}

fn seed_of_two() -> Option<LineIndexSeed> {
    Some(LineIndexSeed {
        inode_change: hash(1),
        inode_at: 5,
        lines: vec![
            SeedLine { change: hash(1), start: 5, end: 9, incoming_by: hash(1) },
            SeedLine { change: hash(2), start: 0, end: 4, incoming_by: hash(2) },
        ],
    })
}

#[test]
fn only_unknown_modified_files_are_seeded() {
    let with_old = |path: &str, operation, old: &[u8]| {
        let mut f = file(path, operation, b"x\n");
        f.old_content = Some(old.to_vec());
        f
    };
    let mut index = ImportLineIndex::new();
    index.seed_missing_modified_files(
        &vec![
            // Without old content there is nothing to seed from.
            file("a.txt", FileOperation::Modified, b"x\n"),
            // The graph does not know the file.
            with_old("a.txt", FileOperation::Modified, b"one\ntwo\n"),
            with_old("b.txt", FileOperation::Added, b"one\ntwo\n"),
            // The graph knows another number of lines.
            with_old("c.txt", FileOperation::Modified, b"one\n"),
        ],
        &vec![seed_of_two(), None, seed_of_two(), seed_of_two()],
    );
    assert!(index.files.entries.is_empty());
    index.seed_missing_modified_files(
        &vec![
            with_old("a.txt", FileOperation::Modified, b"one\ntwo\n"),
            // A known file is left alone.
            with_old("a.txt", FileOperation::Modified, b"1\n2\n"),
        ],
        &vec![seed_of_two(), seed_of_two()],
    );
    assert_eq!(contents_of(&index, "a.txt"), vec![&b"one\n"[..], b"two\n"]);
    // Two changes lead to its lines.
    assert_eq!(index.files.get("a.txt").unwrap().imported_commits, 2);
}

#[test]
fn a_file_written_otherwise_is_taken_anew_from_the_graph() {
    let mut index = ImportLineIndex::new();
    index.reseed_from_fallback_write(
        &file("a.txt", FileOperation::Added, b"one\ntwo\n"),
        &seed_of_two(),
    );
    assert_eq!(index.files.get("a.txt").unwrap().imported_commits, 2);
    index.reseed_from_fallback_write(
        &file("a.txt", FileOperation::Modified, b"1\n2\n"),
        &seed_of_two(),
    );
    assert_eq!(contents_of(&index, "a.txt"), vec![&b"1\n"[..], b"2\n"]);
    assert_eq!(index.files.get("a.txt").unwrap().imported_commits, 3);
    let mut renamed = file("b.txt", FileOperation::Renamed, b"1\n2\n");
    renamed.old_path = Some("a.txt".to_string());
    index.reseed_from_fallback_write(&renamed, &seed_of_two());
    assert!(index.files.get("a.txt").is_none());
    assert_eq!(contents_of(&index, "b.txt"), vec![&b"1\n"[..], b"2\n"]);
    index.reseed_from_fallback_write(&file("b.txt", FileOperation::Deleted, b""), &None);
    assert!(index.files.get("b.txt").is_none());
}

#[test]
fn test_generated_diff_skip_paths_include_terraform_website_assets() {
    assert!(is_generated_diff_skip_path("website/source/stylesheets/main.css"));
    assert!(is_generated_diff_skip_path("website/source/images/logo-static.png"));
    assert!(is_generated_diff_skip_path("package-lock.json"));
    assert!(is_generated_diff_skip_path("dist/app.min.js"));

    assert!(!is_generated_diff_skip_path("website/source/stylesheets/_footer.less"));
    assert!(!is_generated_diff_skip_path("website/source/layouts/docs.erb"));
    assert!(!is_generated_diff_skip_path("internal/style.css"));
}

#[test]
fn test_graph_first_added_file_ops_use_unique_branch_ids_and_ranges() {
    let mut next_branch_idx = 0;
    let first = build_graph_first_file_ops_for_added_file(
        "a.txt",
        &vec![b"one\n".to_vec(), b"two\n".to_vec()],
        &vec![(0, 4), (4, 8)],
        Encoding::Utf8,
        0,
        &mut next_branch_idx,
    );
    let second = build_graph_first_file_ops_for_added_file(
        "b.txt",
        &vec![b"three\n".to_vec()],
        &vec![(8, 14)],
        Encoding::Utf8,
        1,
        &mut next_branch_idx,
    );
    match (first, second) {
        (
            FileOps::Created { file_idx: first_idx, lines: first_lines, .. },
            FileOps::Created { file_idx: second_idx, lines: second_lines, .. },
        ) => {
            assert_eq!(first_idx, 0);
            assert_eq!(second_idx, 1);
            assert_eq!(first_lines[0].branch_idx, 0);
            assert_eq!(first_lines[1].branch_idx, 1);
            assert_eq!(second_lines[0].branch_idx, 2);
            assert_eq!(first_lines[1].content_range, Some((4, 8)));
        }
        other => panic!("unexpected file ops {:?}", other),
    }
}

#[test]
fn test_graph_first_binary_file_ops_create_trunk_only() {
    let mut next_branch_idx = 0;
    let ops = build_graph_first_file_ops_for_added_file(
        "website/source/images/logo-static.png",
        &vec![b"\x89PNG\r\n\x1a\n".to_vec()],
        &vec![(0, 8)],
        Encoding::Binary,
        0,
        &mut next_branch_idx,
    );
    match ops {
        FileOps::Created { file_idx, lines, .. } => {
            assert_eq!(file_idx, 0);
            assert!(lines.is_empty());
        }
        other => panic!("unexpected file ops {:?}", other),
    }
    assert_eq!(next_branch_idx, 0);
}

#[test]
fn similarity_bps_survives_the_corpus_scale_boundary() {
    let mut old_bytes = Vec::new();
    for _ in 0..450 {
        old_bytes.extend(vec![b'x'; 1_000]);
        old_bytes.push(b'\n');
    }
    assert_eq!(old_bytes.len(), 450_450, "the fixture's exact size");

    // Renamed with a small appended edit: near-identical content.
    let mut new_bytes = old_bytes.clone();
    new_bytes.extend_from_slice(b"extra\n");
    let score = similarity_bps(&old_bytes, &new_bytes);
    assert!(
        (9_900..=9_999).contains(&score),
        "a 450450-byte rename with a small append scores near-full similarity: {score}"
    );

    // Byte-identical and empty/identical edges stay exact.
    assert_eq!(similarity_bps(&old_bytes, &old_bytes), 10_000);
    assert_eq!(similarity_bps(b"", b""), 10_000);
    // One-sided empty content shares nothing.
    assert_eq!(similarity_bps(b"", b"tail\n"), 0);
    assert_eq!(similarity_bps(b"tail\n", b""), 0);

    // A shared span of the size at which a narrow product would run over.
    let big = vec![b'x'; 429_497];
    let mut bigger = big.clone();
    bigger.push(b'y');
    let score = similarity_bps(&big, &bigger);
    assert_eq!(score, 9_999, "the boundary stays capped");
}

#[test]
fn lines_keep_their_line_feeds() {
    assert_eq!(split_graph_first_lines(b"a\n\nb"), vec![&b"a\n"[..], b"\n", b"b"]);
    assert!(split_graph_first_lines(b"").is_empty());
    assert_eq!(count_line_units(b"a\n\nb"), 3);
    assert_eq!(count_line_units(b"a\n"), 1);
}

#[test]
fn one_block_leads_from_old_lines_to_new_content() {
    let old = vec![b"a\n".to_vec(), b"b\n".to_vec(), b"c\n".to_vec()];
    let blocks = current_state_replacements(&old, b"a\nx\ny\nc\n");
    assert_eq!(blocks.len(), 1);
    assert_eq!((blocks[0].old_start, blocks[0].old_len, blocks[0].new_start), (2, 1, 2));
    assert_eq!(blocks[0].new_lines, vec![b"x\n".to_vec(), b"y\n".to_vec()]);
    let inserted = current_state_replacements(&old, b"a\nb\nx\nc\n");
    assert_eq!((inserted[0].old_start, inserted[0].old_len, inserted[0].new_start), (2, 0, 3));
    assert!(current_state_replacements(&old, b"a\nb\nc\n").is_empty());
}

#[test]
fn a_diff_is_cut_into_blocks_at_its_context() {
    let line = |origin: char, old: Option<u32>, new: Option<u32>| GitDiffLine {
        origin,
        content: b"x\n".to_vec(),
        old_lineno: old,
        new_lineno: new,
    };
    let blocks = parse_git_diff_replacements(&vec![
        line('-', Some(3), None),
        line('-', Some(4), None),
        line('+', None, Some(3)),
        line(' ', Some(5), Some(4)),
        line('+', None, Some(5)),
        line('\\', None, None),
    ]);
    assert_eq!(blocks.len(), 2);
    assert_eq!((blocks[0].old_start, blocks[0].old_len, blocks[0].new_start), (3, 2, 3));
    assert_eq!((blocks[1].old_start, blocks[1].old_len, blocks[1].new_start), (5, 0, 5));
    assert_eq!(blocks[1].new_lines.len(), 1);
}
