use atomic_git::claims::{
    check_claims, checks_worktree, equivalence_error, judge_worktree_path,
    validate_claimed_change_roots, verify_claimed_change_closure, verify_claimed_state,
    ClaimCheck, ClaimProof, ClaimedRoot, ProspectiveImportPlan, VerifiedImportCommit,
};
use atomic_git::commit::{CommitMetadata, FileOperation, ParsedCommit, ParsedFile};
use atomic_git::error::CliError;
use atomic_git::graph::{ContentHash, Encoding};
use atomic_git::graph_first::{GraphFirstSkip, SkipReason};
use atomic_git::json::{read_json, JsonValue};
use atomic_git::ledger::{ancestry_of, ClosureFacts, ClosureLedger, MemberOrigin};
use atomic_git::line_index::ImportLineIndex;
use atomic_git::message::{Merkle, PushTrailer};
use atomic_git::oid::{tagged_oid_from_hex, tagged_oid_hex};
use atomic_git::paths::PathMap;
use atomic_git::progress::{
    count_changed_bytes, graph_first_skip_summary, import_shape_summary, largest_records,
    slow_import_commit_label, slow_import_record_summary, truncate_for_progress, SizedPath,
};
use atomic_git::rewrite::{
    captured_post_rewrite_linkage, journal_record_of, read_journal_line, rewrite_candidate_link,
    rewrite_evidence_for, CaptureFacts, EvidenceClass, KnownBinding, RewriteLinkage,
};
use atomic_git::sequence::CommitNode;
use atomic_git::shadow::Mismatch;
use atomic_git::squash::MergeStrategy;
use atomic_git::tree::{InodeKind, RepositoryEntry};

const COMMIT: &str = "00112233445566778899aabbccddeeff00112233";
const TREE: &str = "4b825dc642cb6eb9a060e54bf8d69288fbee4904";
const OLD: &str = "ffeeddccbbaa99887766554433221100ffeeddcc";

fn git_message(error: CliError) -> String {
    match error {
        CliError::GitError { message } => message,
        other => panic!("expected a Git error, got {:?}", other),
    }
}

fn file(path: &str, operation: FileOperation, content: Option<&[u8]>) -> ParsedFile {
    ParsedFile {
        path: path.to_string(),
        operation,
        new_content: content.map(|c| c.to_vec()),
        old_content: None,
        diff_lines: None,
        old_path: None,
        new_mode: Some(0o100644),
        new_encoding: Encoding::Utf8,
        old_encoding: None,
    }
}

fn commit(message: &str, description: Option<&str>, files: Vec<ParsedFile>) -> ParsedCommit {
    ParsedCommit {
        git_sha: COMMIT.to_string(),
        short_sha: "00112233".to_string(),
        metadata: CommitMetadata {
            author_name: "Ann".to_string(),
            author_email: None,
            author_name_raw: vec![],
            author_email_raw: None,
            timestamp: 0,
            message: message.to_string(),
            description: description.map(|d| d.to_string()),
            author_time: 0,
            author_time_offset_seconds: 0,
            committer_name: "Ann".to_string(),
            committer_email: None,
            committer_name_raw: vec![],
            committer_email_raw: None,
            committer_time: 0,
            committer_time_offset_seconds: 0,
        },
        files,
        parent_index: None,
        parent_oids: vec![],
        committer_time: 0,
        is_merge: false,
        is_empty: false,
        push_trailer: None,
        tree_oid: TREE.to_string(),
        parent_tree_oid: None,
        raw_object: vec![],
    }
}

fn journal(new: &str, old: &str) -> String {
    format!(
        "{{\"record_type\":\"post-rewrite\",\"advisory\":true,\"interpretation\":\"hint\",\"event_id\":\"E\",\"rewritten\":[{{\"old_oid\":\"{old}\",\"new_oid\":\"{new}\"}}]}}"
    )
}

#[test]
fn a_journal_line_names_what_a_commit_rewrites() {
    let reading = read_journal_line(&journal(&COMMIT.to_uppercase(), OLD), "hint", COMMIT);
    assert_eq!(reading.event_id, "E");
    assert_eq!(reading.matched, vec![OLD]);
    assert_eq!(reading.untrusted, 0);
    // A pair for another commit says nothing of this one.
    let reading = read_journal_line(&journal(OLD, COMMIT), "hint", COMMIT);
    assert!(reading.matched.is_empty());
    // An abbreviated id is malformed.
    let reading = read_journal_line(&journal(COMMIT, "ffee"), "hint", COMMIT);
    assert!(reading.matched.is_empty());
    assert_eq!(reading.untrusted, 1);
}

#[test]
fn a_record_is_read_by_the_names_of_its_members() {
    let text = |s: &str| JsonValue::Text(s.to_string());
    let member = |name: &str, v: JsonValue| (name.to_string(), v);
    let pair = JsonValue::Members(vec![
        member("new_oid", text("n")),
        member("old_oid", JsonValue::Number("7".to_string())),
    ]);
    let record = journal_record_of(&JsonValue::Members(vec![
        member("advisory", JsonValue::Truth(true)),
        member("event_id", JsonValue::Null),
        member("record_type", text("post-rewrite")),
        member("rewritten", JsonValue::List(vec![pair, JsonValue::Null])),
    ]));
    assert_eq!(record.record_type.as_deref(), Some("post-rewrite"));
    assert_eq!(record.advisory, Some(true));
    assert_eq!(record.interpretation, None);
    assert_eq!(record.event_id, None);
    let pairs = record.rewritten.unwrap();
    assert_eq!(pairs.len(), 2);
    assert_eq!(pairs[0].new_oid.as_deref(), Some("n"));
    assert_eq!(pairs[0].old_oid, None);
    assert_eq!(pairs[1].new_oid, None);
    assert!(journal_record_of(&text("x")).record_type.is_none());
}

#[test]
fn a_json_text_becomes_a_plain_value() {
    let v = read_json(" {\"b\": [1.5, null, \"\\u00e9\"], \"a\": false, \"a\": true} ").unwrap();
    match &v {
        JsonValue::Members(ms) => {
            let names: Vec<&str> = ms.iter().map(|(n, _)| n.as_str()).collect();
            assert_eq!(names, vec!["a", "b"]);
        }
        other => panic!("unexpected {:?}", other),
    }
    assert_eq!(v.truth_at("a"), Some(true));
    assert_eq!(v.text_at("a"), None);
    assert!(v.get("c").is_none());
    let items = v.items_at("b").unwrap();
    assert!(matches!(&items[0], JsonValue::Number(n) if n == "1.5"));
    assert!(matches!(&items[1], JsonValue::Null));
    assert!(matches!(&items[2], JsonValue::Text(s) if s == "é"));
    assert!(read_json("{").is_none());
    assert!(read_json("").is_none());
}

#[test]
fn malformed_journal_lines_are_counted() {
    let untrusted = |line: &str| read_journal_line(line, "hint", COMMIT).untrusted;
    assert_eq!(untrusted("not json"), 1);
    assert_eq!(untrusted("{}"), 0);
    assert_eq!(untrusted("[1]"), 0);
    assert_eq!(untrusted("{\"record_type\":\"other\"}"), 0);
    assert_eq!(untrusted("{\"record_type\":\"post-rewrite\"}"), 1);
    let line = journal(COMMIT, OLD);
    assert_eq!(untrusted(&line.replace("true", "false")), 1);
    assert_eq!(untrusted(&line.replace("hint", "other")), 1);
    assert_eq!(
        untrusted("{\"record_type\":\"post-rewrite\",\"advisory\":true,\"interpretation\":\"hint\"}"),
        1
    );
}

fn captured(captured: bool) -> CaptureFacts {
    CaptureFacts { captured, anchored: true, binds: true, verified: true, interpreted: true }
}

#[test]
fn only_captured_events_link_a_rewrite() {
    let read = || read_journal_line(&journal(COMMIT, OLD), "hint", COMMIT);
    let mut anonymous = read();
    anonymous.event_id = String::new();
    let silent = read_journal_line("{}", "hint", COMMIT);
    let broken = read_journal_line("not json", "hint", COMMIT);
    let linkage = captured_post_rewrite_linkage(
        vec![read(), silent, broken, read(), anonymous],
        &vec![captured(false), captured(true), captured(true), captured(true), captured(true)],
    )
    .unwrap();
    assert_eq!(linkage.predecessors, vec![OLD]);
    assert_eq!(linkage.event_ids, vec!["E"]);
    assert_eq!(linkage.unauthenticated, 2);
    assert_eq!(linkage.untrusted, 1);
    // A journal that does not speak of the commit links nothing.
    assert!(captured_post_rewrite_linkage(vec![], &vec![]).is_none());
    let silent = read_journal_line(&journal(OLD, COMMIT), "hint", COMMIT);
    assert!(captured_post_rewrite_linkage(vec![silent], &vec![captured(true)]).is_none());
}

fn binding(id: &str, commit: &str, tree: &str, in_range: bool) -> KnownBinding {
    KnownBinding {
        id: id.to_string(),
        commit: commit.to_string(),
        tree: tree.to_string(),
        in_range,
    }
}

#[test]
fn bindings_only_hint_at_a_rewrite() {
    let mut parsed = commit("x", None, vec![]);
    let bindings = vec![
        binding("self", COMMIT, TREE, true),
        binding("tree", OLD, TREE, false),
        binding("range", OLD, OLD, true),
        binding("far", OLD, OLD, false),
    ];
    let classes = |parsed: &ParsedCommit| -> Vec<(&'static str, String)> {
        rewrite_evidence_for(parsed, &RewriteLinkage::new(), &bindings)
            .unwrap()
            .iter()
            .map(|e| (e.class.label(), e.binding_ids[0].clone()))
            .collect()
    };
    assert_eq!(
        classes(&parsed),
        vec![
            ("binding-tree-match", "tree".to_string()),
            ("binding-root-range-match", "range".to_string()),
            ("binding-root-range-match", "far".to_string()),
        ]
    );
    parsed.parent_oids = vec!["11".repeat(20)];
    assert_eq!(
        classes(&parsed),
        vec![
            ("binding-tree-match", "tree".to_string()),
            ("binding-range-match", "range".to_string()),
        ]
    );
    parsed.parent_oids = vec!["zz".to_string()];
    assert!(git_message(
        rewrite_evidence_for(&parsed, &RewriteLinkage::new(), &bindings).unwrap_err()
    )
    .starts_with("invalid Git commit SHA 'zz': "));
}

#[test]
fn evidence_never_establishes_identity() {
    let parsed = commit("x", None, vec![]);
    let mut linkage = RewriteLinkage::new();
    let none = rewrite_evidence_for(&parsed, &linkage, &vec![]).unwrap();
    assert!(rewrite_candidate_link(&parsed, &none).is_none());
    let limit = |linkage: &RewriteLinkage, bindings: &Vec<KnownBinding>| {
        let evidence = rewrite_evidence_for(&parsed, linkage, bindings).unwrap();
        let tag = rewrite_candidate_link(&parsed, &evidence).unwrap();
        assert_eq!(tag.name, format!("rewrite-candidate-{COMMIT}"));
        assert_eq!(
            tag.message,
            "RewriteCandidate: squash 00112233 linked by captured evidence"
        );
        tag.identity_limit
    };
    assert!(limit(&linkage, &vec![binding("b", OLD, TREE, false)])
        .starts_with("advisory-hint-only: "));
    linkage.unauthenticated = 1;
    assert!(limit(&linkage, &vec![]).starts_with("unauthenticated-evidence-only: "));
    linkage.predecessors = vec![OLD.to_string()];
    linkage.event_ids = vec!["E".to_string()];
    assert!(limit(&linkage, &vec![]).starts_with("operation-linkage-only: "));
    let evidence = rewrite_evidence_for(&parsed, &linkage, &vec![]).unwrap();
    assert_eq!(evidence[0].class, EvidenceClass::PostRewriteEvent);
    assert_eq!(evidence[1].class, EvidenceClass::UnauthenticatedEvent);
}

#[test]
fn a_candidate_carries_its_evidence() {
    let parsed = commit("x", None, vec![]);
    let mut linkage = RewriteLinkage::new();
    linkage.predecessors = vec![OLD.to_string(), "22".repeat(20)];
    linkage.event_ids = vec!["E1".to_string(), "E2".to_string()];
    linkage.unauthenticated = 1;
    let evidence =
        rewrite_evidence_for(&parsed, &linkage, &vec![binding("b", OLD, TREE, false)]).unwrap();
    let tag = rewrite_candidate_link(&parsed, &evidence).unwrap();
    assert_eq!(tag.git_sha, COMMIT);
    assert_eq!(tag.strategy, MergeStrategy::Squash);
    let classes: Vec<&str> = tag.entries.iter().map(|e| e.class).collect();
    assert_eq!(
        classes,
        vec!["post-rewrite-event", "unauthenticated-event", "binding-tree-match"]
    );
    let captured = &tag.entries[0];
    assert_eq!(captured.predecessor_oids, vec![OLD.to_string(), "22".repeat(20)]);
    assert_eq!(captured.event_ids, vec!["E1", "E2"]);
    assert!(captured.binding_ids.is_empty());
    let bare = &tag.entries[1];
    assert!(bare.predecessor_oids.is_empty() && bare.event_ids.is_empty());
    let bound = &tag.entries[2];
    assert_eq!(bound.predecessor_oids, vec![OLD]);
    assert_eq!(bound.binding_ids, vec!["b"]);
    assert!(bound.event_ids.is_empty());
    // All of it is advice, and only a captured event is authenticated.
    assert!(tag.entries.iter().all(|e| e.advisory));
    let authenticated: Vec<bool> = tag.entries.iter().map(|e| e.authenticated).collect();
    assert_eq!(authenticated, vec![true, false, false]);
}

#[test]
fn claims_are_checked_before_anything_is_imported() {
    let state = Merkle { hi: 1, lo: 2 };
    let known = vec![state];
    let check = |parsed: &ParsedCommit, has_source: bool| {
        check_claims(parsed, "main", &known, has_source)
    };
    assert!(matches!(
        check(&commit("plain", None, vec![]), true).unwrap(),
        ClaimCheck::NoClaim
    ));
    let bare = commit("x", Some("Atomic-Changes: A, B"), vec![]);
    assert!(git_message(check(&bare, true).unwrap_err()).contains(
        " claims Atomic provenance with a bare Atomic-Changes header; no Atomic projection emits that shape"
    ));
    let full = commit(
        "x",
        Some("Atomic-View: main\nAtomic-State: S\nAtomic-Changes: A, B"),
        vec![],
    );
    match check(&full, true).unwrap() {
        ClaimCheck::Closure { changes } => assert_eq!(changes, vec!["A", "B"]),
        other => panic!("unexpected check {:?}", other),
    }
    assert!(matches!(check(&full, false).unwrap(), ClaimCheck::Unverified));
    let mut pushed = commit("x", None, vec![]);
    pushed.push_trailer = Some(PushTrailer {
        view: "main".to_string(),
        state,
        changes: vec![],
    });
    assert!(matches!(check(&pushed, true).unwrap(), ClaimCheck::State));
    assert_eq!(
        git_message(check_claims(&pushed, "main", &vec![], true).unwrap_err()),
        format!("commit {COMMIT} carries an unverifiable Atomic-State/Atomic-View claim")
    );
}

fn outcome(projection: Option<&str>, equivalence: Option<&str>) -> ClaimProof {
    ClaimProof {
        projection_error: projection.map(|e| e.to_string()),
        equivalence_error: equivalence.map(|e| e.to_string()),
    }
}

fn root(encoded: &str, decoded: bool, load_error: Option<&str>) -> ClaimedRoot {
    ClaimedRoot {
        encoded: encoded.to_string(),
        decoded,
        load_error: load_error.map(|e| e.to_string()),
    }
}

#[test]
fn a_claimed_state_must_project_the_tree() {
    assert!(verify_claimed_state("c", true, &outcome(None, None)).is_ok());
    let told = |has_source: bool, p: ClaimProof| {
        git_message(verify_claimed_state("c", has_source, &p).unwrap_err())
    };
    assert_eq!(
        told(false, outcome(None, None)),
        "commit c claims Atomic state but no Atomic repository exists"
    );
    assert_eq!(
        told(true, outcome(Some("why"), Some("x"))),
        "commit c carries an unverifiable Atomic state: why"
    );
    assert_eq!(
        told(true, outcome(None, Some("why"))),
        "commit c carries a forged Atomic state: why"
    );
}

#[test]
fn claimed_changes_must_be_there() {
    let fine = vec![root("A", true, None)];
    assert!(validate_claimed_change_roots("c", true, &fine).is_ok());
    assert_eq!(
        git_message(validate_claimed_change_roots("c", false, &fine).unwrap_err()),
        "commit c claims Atomic changes but no Atomic repository exists"
    );
    assert_eq!(
        git_message(
            validate_claimed_change_roots("c", true, &vec![root("?", false, None)]).unwrap_err()
        ),
        "commit c carries invalid Atomic-Changes value '?'"
    );
    assert_eq!(
        git_message(
            validate_claimed_change_roots("c", true, &vec![root("A", true, Some("gone"))])
                .unwrap_err()
        ),
        "commit c references unavailable Atomic change A: gone"
    );
    let closure = |changes: Option<Vec<ClaimedRoot>>, p: ClaimProof| {
        verify_claimed_change_closure("c", true, &changes, &p)
    };
    assert!(closure(Some(fine), outcome(None, None)).is_ok());
    assert_eq!(
        git_message(closure(None, outcome(None, None)).unwrap_err()),
        "commit c claims Atomic state without an Atomic-Changes closure"
    );
    assert_eq!(
        git_message(closure(Some(vec![]), outcome(None, Some("why"))).unwrap_err()),
        "commit c carries a forged Atomic change closure: why"
    );
    assert_eq!(
        git_message(
            closure(Some(vec![root("?", false, None)]), outcome(None, Some("why"))).unwrap_err()
        ),
        "commit c carries invalid Atomic-Changes value '?'"
    );
    assert_eq!(
        git_message(
            verify_claimed_change_closure("c", false, &None, &outcome(None, None)).unwrap_err()
        ),
        "commit c claims Atomic provenance but no Atomic repository exists"
    );
}

#[test]
fn a_plan_names_every_changed_path_once() {
    let mut renamed = file("b", FileOperation::Renamed, None);
    renamed.old_path = Some("a".to_string());
    let verified = |files: Vec<ParsedFile>, tree: &str| VerifiedImportCommit {
        parsed: commit("x", None, files),
        expected_tree_oid: tagged_oid_from_hex(tree).unwrap(),
        raw_tree_oid: tagged_oid_from_hex(OLD).unwrap(),
    };
    let plan = ProspectiveImportPlan {
        commits: vec![
            verified(vec![file("c", FileOperation::Added, None), renamed], OLD),
            verified(vec![file("a", FileOperation::Added, None)], TREE),
        ],
        boundaries: vec![],
    };
    assert_eq!(plan.changed_paths(), vec!["a", "b", "c"]);
    assert_eq!(plan.expected_git_tree().map(tagged_oid_hex).as_deref(), Some(TREE));
    assert_eq!(plan.raw_git_tree().map(tagged_oid_hex).as_deref(), Some(OLD));
    let empty = ProspectiveImportPlan { commits: vec![], boundaries: vec![] };
    assert!(empty.expected_git_tree().is_none());
    assert!(empty.raw_git_tree().is_none());
    assert!(empty.changed_paths().is_empty());
}

#[test]
fn the_working_tree_must_agree_with_the_plan() {
    assert!(checks_worktree(Some("main"), "main"));
    assert!(!checks_worktree(Some("main"), "dev"));
    assert!(!checks_worktree(None, "dev"));
    let entry = |excluded: bool, kind: InodeKind| {
        Some(RepositoryEntry {
            path: "p".to_string(),
            bytes: b"x".to_vec(),
            mode: 0o644,
            kind,
            gitlink: None,
            excluded,
        })
    };
    let judge = |e: &Option<RepositoryEntry>, present: bool, cleaned: &[u8]| {
        judge_worktree_path("p", e, present, &cleaned.to_vec())
    };
    assert!(judge(&None, false, b"").is_ok());
    assert_eq!(
        git_message(judge(&None, true, b"").unwrap_err()),
        "deleted Git path 'p' is still present in the worktree"
    );
    assert!(judge(&entry(false, InodeKind::Regular), true, b"x").is_ok());
    assert_eq!(
        git_message(judge(&entry(false, InodeKind::Regular), true, b"y").unwrap_err()),
        "changed worktree path 'p' does not match the verified Git tree"
    );
    assert!(judge(&entry(true, InodeKind::Regular), true, b"y").is_ok());
    assert!(judge(&entry(false, InodeKind::Symlink), true, b"y").is_ok());
}

#[test]
fn every_difference_is_told() {
    let one = |path: Option<&str>| Mismatch {
        layer: "Git".to_string(),
        kind: "Mode".to_string(),
        path: path.map(|p| p.to_string()),
        expected: "1".to_string(),
        actual: "2".to_string(),
    };
    assert_eq!(
        git_message(equivalence_error("import", &vec![one(None), one(Some("p"))])),
        "import failed complete equivalence: Git/Mode <repository>: expected 1, actual 2; Git/Mode p: expected 1, actual 2"
    );
}

fn node(oid: &str, parents: &[&str]) -> CommitNode {
    CommitNode {
        oid: oid.to_string(),
        committer_time: 0,
        parents: parents.iter().map(|p| p.to_string()).collect(),
    }
}

fn hash(n: u128) -> ContentHash {
    ContentHash { hi: n, lo: 0 }
}

#[test]
fn the_closure_of_a_commit_holds_that_of_its_ancestors() {
    let commits = vec![node("m", &["a", "b"]), node("a", &["r"]), node("b", &["r"]), node("r", &[])];
    let mut facts: PathMap<ClosureFacts> = PathMap::new();
    let known = |persisted: Option<Vec<u128>>, checked: Option<u128>, deps: &[u128]| ClosureFacts {
        persisted: persisted.map(|v| v.iter().map(|n| hash(*n)).collect()),
        checked: checked.map(hash),
        dependencies: deps.iter().map(|n| hash(*n)).collect(),
    };
    facts.insert("r".to_string(), known(None, Some(1), &[]));
    facts.insert("a".to_string(), known(Some(vec![1, 7]), Some(2), &[9]));
    facts.insert("b".to_string(), known(None, Some(3), &[1, 8]));
    let mut ledger = ClosureLedger::new();
    assert_eq!(
        ledger.interpreted_closure(&commits, &facts, "m").unwrap(),
        vec![hash(1), hash(2), hash(3), hash(7), hash(8)]
    );
    // What was asked for is remembered, with all of its ancestors.
    assert_eq!(
        ledger.interpreted_closure(&vec![], &PathMap::new(), "b").unwrap(),
        vec![hash(1), hash(3), hash(8)]
    );
    // A change that a run introduces counts from now on.
    ledger.record_introduced("n", hash(4), "main");
    let commits = vec![node("n", &["m"]), node("x", &["gone"])];
    assert_eq!(
        ClosureLedger::new().interpreted_closure(&commits, &facts, "x").unwrap_err(),
        "gone"
    );
    assert_eq!(ancestry_of(&commits, "x").unwrap_err(), "gone");
    let history = vec![node("m", &["a", "r"]), node("a", &["r"]), node("r", &[])];
    assert_eq!(ancestry_of(&history, "m").unwrap(), vec!["m", "a", "r"]);
}

#[test]
fn foreign_lineages_are_left_out_of_an_import() {
    let member = |n: u128, origin: Option<&str>| MemberOrigin {
        hash: hash(n),
        origin: origin.map(|o| o.to_string()),
    };
    let members =
        vec![member(1, Some("a")), member(2, Some("x")), member(3, None), member(4, Some("y"))];
    let ledger = ClosureLedger::new();
    let ancestry = vec!["a".to_string()];
    let closure = vec![hash(4)];
    assert_eq!(ledger.exclusions_for(&members, &ancestry, &closure, true), vec![hash(2)]);
    assert!(ledger.exclusions_for(&members, &ancestry, &closure, false).is_empty());
    let mut keeping = ClosureLedger::new();
    assert!(keeping.member_origins.is_none());
    keeping.keep_members(members);
    assert_eq!(keeping.member_origins.map(|m| m.len()), Some(4));
}

#[test]
fn a_slow_commit_is_told_of() {
    let parsed = commit(
        "Subject\nwith a break",
        None,
        vec![
            file("small", FileOperation::Added, Some(b"a\n")),
            file("big", FileOperation::Modified, Some(b"a\nb\nc\n")),
        ],
    );
    assert_eq!(slow_import_commit_label(&parsed), "00112233 \"Subject with a break\"");
    assert_eq!(truncate_for_progress("abcdef", 3), "abc...");
    assert_eq!(truncate_for_progress("abc", 3), "abc");
    assert_eq!(count_changed_bytes(&parsed.files), Some(8));
    assert_eq!(
        slow_import_record_summary(&parsed, 2, "8 B", &vec!["big (6 B)".to_string()]),
        "records=2, files=2, bytes=8 B, ops=+1/~1/-0 renames=0 copies=0; top records: big (6 B)"
    );
    assert!(slow_import_record_summary(&parsed, 0, "0 B", &vec![])
        .ends_with("; top records: none"));
    let summary = import_shape_summary(&parsed, &ImportLineIndex::new());
    assert_eq!(
        summary,
        "big op=Modified lines=3 indexed_lines=0 file_commits=0 bytes=6; small op=Added lines=1 indexed_lines=0 file_commits=0 bytes=2"
    );
    let skips = vec![GraphFirstSkip {
        path: "big".to_string(),
        operation: FileOperation::Modified,
        reason: SkipReason::ModifiedMissingLineIndex,
    }];
    let told = graph_first_skip_summary(&skips, &parsed);
    assert!(told.starts_with("big op=Modified reason="), "{told}");
    assert!(told.ends_with(" lines=3"), "{told}");
}

#[test]
fn the_largest_records_come_first() {
    let sized = |path: &str, size: u64| SizedPath { path: path.to_string(), size };
    let top = largest_records(vec![sized("d", 1), sized("b", 5), sized("a", 5), sized("c", 9)]);
    let names: Vec<&str> = top.iter().map(|s| s.path.as_str()).collect();
    assert_eq!(names, vec!["c", "a", "b"]);
}
