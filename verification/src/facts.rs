//! What is recorded of a commit besides its content: the hashed facts of the
//! foreign object, the state that the written change must project, and the
//! unhashed description.
use crate::commit;
use crate::commit::{FileOperation, ParsedCommit, ParsedFile};
use crate::error::CliError;
use crate::graph;
use crate::line_units;
use crate::line_units::{clone_bytes, clone_diff_lines, GitDiffLine};
use crate::oid;
use crate::oid::{hex_bytes, hex_of, tagged_oid_hex, GitObjectId};
use crate::push::{git_algorithm_label, GitHashAlgorithm};
use crate::synthesis;
use crate::synthesis::{origin_of, GitDerivation};
use crate::text;
use crate::text::clone_texts;
use crate::tree;
use crate::tree::{InodeKind, RepositoryEntry};
use vstd::prelude::*;

verus! {

/// Schema tag of the facts of an empty commit.
pub const EMPTY_COMMIT_FACTS_FORMAT: &'static str = "atomic:empty-commit:v1";

/// Schema tag of the facts of a commit with changes.
pub const FOREIGN_COMMIT_FACTS_FORMAT: &'static str = "atomic:foreign-commit:v1";

/// A raw identity and its time.
#[derive(Debug)]
pub struct ForeignSignatureFacts {
    pub name: String,
    pub email: Option<String>,
    pub time: i64,
    pub time_offset_seconds: i64,
    /// The raw bytes of the name, in hexadecimal.
    pub name_raw_hex: String,
    /// The raw bytes of the email, in hexadecimal; empty where there is none.
    pub email_raw_hex: String,
}

/// A `ForeignSignatureFacts` as a value.
#[verifier::ext_equal]
pub struct SignatureView {
    pub name: Seq<char>,
    pub email: Option<Seq<char>>,
    pub time: i64,
    pub time_offset_seconds: i64,
    pub name_raw_hex: Seq<char>,
    pub email_raw_hex: Seq<char>,
}

impl View for ForeignSignatureFacts {
    type V = SignatureView;

    open spec fn view(&self) -> SignatureView {
        SignatureView {
            name: self.name@,
            email: text::opt_text(self.email),
            time: self.time,
            time_offset_seconds: self.time_offset_seconds,
            name_raw_hex: self.name_raw_hex@,
            email_raw_hex: self.email_raw_hex@,
        }
    }
}

/// The hashed facts of a commit with changes.
#[derive(Debug)]
pub struct ForeignCommitFacts {
    pub format: &'static str,
    pub commit: String,
    pub tree: String,
    pub algorithm: &'static str,
    pub parents: Vec<String>,
    pub author: ForeignSignatureFacts,
    pub committer: ForeignSignatureFacts,
    /// The complete raw commit object, in hexadecimal.
    pub raw_object_hex: String,
}

/// The hashed facts of an empty commit.
#[derive(Debug)]
pub struct EmptyCommitFacts {
    pub format: &'static str,
    pub tree: String,
    pub tree_algorithm: &'static str,
    pub author: ForeignSignatureFacts,
    pub committer: ForeignSignatureFacts,
    /// The complete raw commit object, in hexadecimal.
    pub raw_object_hex: String,
}

/// The hexadecimal text of optional bytes.
pub open spec fn opt_hex(b: Option<Vec<u8>>) -> Seq<char> {
    match b {
        Some(v) => oid::hex_text(v@),
        None => seq![],
    }
}

/// The facts of a commit's author.
pub open spec fn author_view(m: commit::CommitMetadata) -> SignatureView {
    SignatureView {
        name: m.author_name@,
        email: text::opt_text(m.author_email),
        time: m.author_time,
        time_offset_seconds: m.author_time_offset_seconds,
        name_raw_hex: oid::hex_text(m.author_name_raw@),
        email_raw_hex: opt_hex(m.author_email_raw),
    }
}

/// The facts of a commit's committer.
pub open spec fn committer_view(m: commit::CommitMetadata) -> SignatureView {
    SignatureView {
        name: m.committer_name@,
        email: text::opt_text(m.committer_email),
        time: m.committer_time,
        time_offset_seconds: m.committer_time_offset_seconds,
        name_raw_hex: oid::hex_text(m.committer_name_raw@),
        email_raw_hex: opt_hex(m.committer_email_raw),
    }
}

fn clone_text(o: &Option<String>) -> (r: Option<String>)
    ensures
        text::opt_text(r) == text::opt_text(*o),
{
    match o {
        Some(s) => Some(s.as_str().to_owned()),
        None => None,
    }
}

fn hex_of_optional(o: &Option<Vec<u8>>) -> (r: String)
    ensures
        r@ == opt_hex(*o),
{
    match o {
        Some(b) => hex_bytes(Some(b.as_slice())),
        None => hex_bytes(None),
    }
}

/// The facts of a commit's author.
pub fn author_facts(m: &commit::CommitMetadata) -> (r: ForeignSignatureFacts)
    ensures
        r@ == author_view(*m),
{
    ForeignSignatureFacts {
        name: m.author_name.as_str().to_owned(),
        email: clone_text(&m.author_email),
        time: m.author_time,
        time_offset_seconds: m.author_time_offset_seconds,
        name_raw_hex: hex_of(&m.author_name_raw),
        email_raw_hex: hex_of_optional(&m.author_email_raw),
    }
}

/// The facts of a commit's committer.
pub fn committer_facts(m: &commit::CommitMetadata) -> (r: ForeignSignatureFacts)
    ensures
        r@ == committer_view(*m),
{
    ForeignSignatureFacts {
        name: m.committer_name.as_str().to_owned(),
        email: clone_text(&m.committer_email),
        time: m.committer_time,
        time_offset_seconds: m.committer_time_offset_seconds,
        name_raw_hex: hex_of(&m.committer_name_raw),
        email_raw_hex: hex_of_optional(&m.committer_email_raw),
    }
}

/// The hexadecimal texts of the objects that a list of ids names.
pub open spec fn hex_names(ss: Seq<Seq<char>>) -> Seq<Seq<char>> {
    ss.map_values(|s: Seq<char>| oid::hex_text(oid::read_oid(s)))
}

fn hex_of_all(ids: &Vec<GitObjectId>, Ghost(names): Ghost<Seq<Seq<char>>>) -> (r: Vec<String>)
    requires
        synthesis::id_views(ids@) == synthesis::named_objects(names),
    ensures
        text::texts(r@) == hex_names(names),
{
    let ghost want = hex_names(names);
    assert(synthesis::id_views(ids@).len() == names.len());
    let mut out: Vec<String> = Vec::new();
    let mut i: usize = 0;
    assert(text::texts(out@) =~= want.take(0));
    while i < ids.len()
        invariant
            i <= ids@.len(),
            ids@.len() == names.len(),
            want == hex_names(names),
            synthesis::id_views(ids@) == synthesis::named_objects(names),
            text::texts(out@) == want.take(i as int),
        decreases ids@.len() - i,
    {
        let h = tagged_oid_hex(&ids[i]);
        let ghost hv = h@;
        assert(synthesis::id_views(ids@)[i as int] == ids@[i as int]@);
        assert(synthesis::named_objects(names)[i as int] == synthesis::named_object(
            names[i as int],
        ));
        assert(hv == want[i as int]);
        let ghost before = text::texts(out@);
        out.push(h);
        assert(text::texts(out@) =~= before.push(hv));
        assert(text::texts(out@) =~= want.take(i as int + 1));
        i += 1;
    }
    assert(want.take(i as int) =~= want);
    out
}

/// Whether `f` holds the facts of a commit with changes.
pub open spec fn states_commit(f: ForeignCommitFacts, p: ParsedCommit) -> bool {
    &&& f.format@ == FOREIGN_COMMIT_FACTS_FORMAT@
    &&& f.commit@ == oid::hex_text(oid::read_oid(p.git_sha@))
    &&& f.tree@ == oid::hex_text(oid::read_oid(p.tree_oid@))
    &&& f.algorithm@ == "sha1"@
    &&& text::texts(f.parents@) == hex_names(text::texts(p.parent_oids@))
    &&& f.author@ == author_view(p.metadata)
    &&& f.committer@ == committer_view(p.metadata)
    &&& f.raw_object_hex@ == oid::hex_text(p.raw_object@)
}

/// Whether `f` holds the facts of an empty commit.
pub open spec fn states_empty_commit(f: EmptyCommitFacts, p: ParsedCommit) -> bool {
    &&& f.format@ == EMPTY_COMMIT_FACTS_FORMAT@
    &&& f.tree@ == oid::hex_text(oid::read_oid(p.tree_oid@))
    &&& f.tree_algorithm@ == "sha1"@
    &&& f.author@ == author_view(p.metadata)
    &&& f.committer@ == committer_view(p.metadata)
    &&& f.raw_object_hex@ == oid::hex_text(p.raw_object@)
}

/// The facts of a commit with changes. There are some whenever all of its
/// ids are those of SHA-1 objects.
pub fn foreign_commit_facts(parsed: &ParsedCommit) -> (r: Result<ForeignCommitFacts, CliError>)
    ensures
        r matches Ok(f) ==> states_commit(f, *parsed),
        r is Ok <==> oid::sound_ids(parsed.git_sha@, synthesis::commit_ids(*parsed)),
        r matches Err(e) ==> oid::tells_unsound_ids(
            e,
            parsed.git_sha@,
            synthesis::commit_ids(*parsed),
        ),
{
    let o = match origin_of(parsed, GitDerivation::FirstParent) {
        Ok(o) => o,
        Err(e) => {
            return Err(e);
        },
    };
    let ghost names = text::texts(parsed.parent_oids@);
    assert(o@.parents == synthesis::named_objects(names));
    Ok(
        ForeignCommitFacts {
            format: FOREIGN_COMMIT_FACTS_FORMAT,
            commit: tagged_oid_hex(&o.commit),
            tree: tagged_oid_hex(&o.tree),
            algorithm: git_algorithm_label(GitHashAlgorithm::Sha1),
            parents: hex_of_all(&o.parents, Ghost(names)),
            author: author_facts(&parsed.metadata),
            committer: committer_facts(&parsed.metadata),
            raw_object_hex: hex_of(&parsed.raw_object),
        },
    )
}

/// The facts of an empty commit. There are some whenever all of its ids are
/// those of SHA-1 objects.
pub fn empty_commit_facts(parsed: &ParsedCommit) -> (r: Result<EmptyCommitFacts, CliError>)
    ensures
        r matches Ok(f) ==> states_empty_commit(f, *parsed),
        r is Ok <==> oid::sound_ids(parsed.git_sha@, synthesis::commit_ids(*parsed)),
        r matches Err(e) ==> oid::tells_unsound_ids(
            e,
            parsed.git_sha@,
            synthesis::commit_ids(*parsed),
        ),
{
    let o = match origin_of(parsed, GitDerivation::EmptyCommit) {
        Ok(o) => o,
        Err(e) => {
            return Err(e);
        },
    };
    Ok(
        EmptyCommitFacts {
            format: EMPTY_COMMIT_FACTS_FORMAT,
            tree: tagged_oid_hex(&o.tree),
            tree_algorithm: git_algorithm_label(GitHashAlgorithm::Sha1),
            author: author_facts(&parsed.metadata),
            committer: committer_facts(&parsed.metadata),
            raw_object_hex: hex_of(&parsed.raw_object),
        },
    )
}

/// Two commits whose facts agree have the same raw commit object: the facts
/// of distinct empty commits are distinct.
pub proof fn distinct_empty_commits_stay_distinct(
    f: EmptyCommitFacts,
    a: ParsedCommit,
    b: ParsedCommit,
)
    requires
        states_empty_commit(f, a),
        states_empty_commit(f, b),
    ensures
        a.raw_object@ == b.raw_object@,
{
    oid::lemma_hex_injective(a.raw_object@, b.raw_object@);
}

/// What a touched path must hold once the change is applied: bytes, or
/// nothing at all.
#[derive(Debug)]
pub struct StagedPath {
    pub path: String,
    pub expected: Option<Vec<u8>>,
}

/// A `StagedPath` as a value.
#[verifier::ext_equal]
pub struct StagedPathView {
    pub path: Seq<char>,
    pub expected: Option<Seq<u8>>,
}

impl View for StagedPath {
    type V = StagedPathView;

    open spec fn view(&self) -> StagedPathView {
        StagedPathView { path: self.path@, expected: graph::opt_bytes(self.expected) }
    }
}

/// An entry that the whole tree must hold.
#[derive(Debug)]
pub struct StagedEntry {
    pub path: String,
    pub bytes: Vec<u8>,
    pub mode: u32,
    pub kind: InodeKind,
}

/// A `StagedEntry` as a value.
#[verifier::ext_equal]
pub struct StagedEntryView {
    pub path: Seq<char>,
    pub bytes: Seq<u8>,
    pub mode: u32,
    pub kind: InodeKind,
}

impl View for StagedEntry {
    type V = StagedEntryView;

    open spec fn view(&self) -> StagedEntryView {
        StagedEntryView {
            path: self.path@,
            bytes: self.bytes@,
            mode: self.mode,
            kind: self.kind,
        }
    }
}

/// What a change must project once it is applied.
#[derive(Debug)]
pub struct StagedExpectation {
    /// The paths that the commit touched.
    pub paths: Vec<StagedPath>,
    /// The complete tree.
    pub entries: Vec<StagedEntry>,
    /// The paths that must carry semantic operations.
    pub semantic_paths: Vec<String>,
}

/// The views of a list of touched paths.
pub open spec fn staged_path_views(v: Seq<StagedPath>) -> Seq<StagedPathView> {
    v.map_values(|p: StagedPath| p@)
}

/// The views of a list of staged entries.
pub open spec fn staged_entry_views(v: Seq<StagedEntry>) -> Seq<StagedEntryView> {
    v.map_values(|e: StagedEntry| e@)
}

/// What a file's path must hold.
pub open spec fn staged_path(f: commit::ParsedFileView) -> StagedPathView {
    StagedPathView {
        path: f.path,
        expected: if f.operation == FileOperation::Deleted {
            None
        } else {
            Some(synthesis::bytes_or_empty(f.new_content))
        },
    }
}

/// What the tree must hold of the first `n` entries: all that are not
/// excluded.
pub open spec fn staged_entries(es: Seq<tree::EntryView>, n: int) -> Seq<StagedEntryView>
    decreases n,
{
    if n <= 0 {
        seq![]
    } else if es[n - 1].excluded {
        staged_entries(es, n - 1)
    } else {
        staged_entries(es, n - 1).push(
            StagedEntryView {
                path: es[n - 1].path,
                bytes: es[n - 1].bytes,
                mode: es[n - 1].mode,
                kind: es[n - 1].kind,
            },
        )
    }
}

fn expected_paths(files: &Vec<ParsedFile>) -> (r: Vec<StagedPath>)
    ensures
        staged_path_views(r@) == commit::file_views(files@).map_values(
            |f: commit::ParsedFileView| staged_path(f),
        ),
{
    let ghost want = commit::file_views(files@).map_values(
        |f: commit::ParsedFileView| staged_path(f),
    );
    let mut out: Vec<StagedPath> = Vec::new();
    let mut i: usize = 0;
    assert(staged_path_views(out@) =~= want.take(0));
    while i < files.len()
        invariant
            i <= files@.len(),
            want == commit::file_views(files@).map_values(
                |f: commit::ParsedFileView| staged_path(f),
            ),
            staged_path_views(out@) == want.take(i as int),
        decreases files@.len() - i,
    {
        let file: &ParsedFile = &files[i];
        let expected: Option<Vec<u8>> = if file.operation == FileOperation::Deleted {
            None
        } else {
            match &file.new_content {
                Some(c) => Some(clone_bytes(c)),
                None => Some(Vec::new()),
            }
        };
        let p = StagedPath { path: file.path.as_str().to_owned(), expected };
        let ghost pv = p@;
        assert(commit::file_views(files@)[i as int] == file@);
        assert(pv =~~= staged_path(file@));
        assert(want[i as int] == staged_path(commit::file_views(files@)[i as int]));
        let ghost before = staged_path_views(out@);
        out.push(p);
        assert(staged_path_views(out@) =~= before.push(pv));
        assert(staged_path_views(out@) =~= want.take(i as int + 1));
        i += 1;
    }
    assert(want.take(i as int) =~= want);
    out
}

fn expected_entries(entries: &Vec<RepositoryEntry>) -> (r: Vec<StagedEntry>)
    ensures
        staged_entry_views(r@) == staged_entries(
            tree::entry_views(entries@),
            entries@.len() as int,
        ),
{
    let ghost es = tree::entry_views(entries@);
    let mut out: Vec<StagedEntry> = Vec::new();
    let mut i: usize = 0;
    assert(staged_entry_views(out@) =~= staged_entries(es, 0));
    while i < entries.len()
        invariant
            i <= entries@.len(),
            es == tree::entry_views(entries@),
            staged_entry_views(out@) == staged_entries(es, i as int),
        decreases entries@.len() - i,
    {
        let e: &RepositoryEntry = &entries[i];
        assert(es[i as int] == e@);
        if !e.excluded {
            let s = StagedEntry {
                path: e.path.as_str().to_owned(),
                bytes: clone_bytes(&e.bytes),
                mode: e.mode,
                kind: e.kind,
            };
            let ghost sv = s@;
            let ghost before = staged_entry_views(out@);
            out.push(s);
            assert(staged_entry_views(out@) =~= before.push(sv));
        }
        i += 1;
    }
    out
}

/// What the change of a commit must project: every path that the commit
/// touched, the complete tree, and semantic operations on the given paths.
pub fn staged_expectation_for(
    parsed: &ParsedCommit,
    entries: &Vec<RepositoryEntry>,
    semantic_paths: &Vec<String>,
) -> (r: StagedExpectation)
    ensures
        staged_path_views(r.paths@) == commit::file_views(parsed.files@).map_values(
            |f: commit::ParsedFileView| staged_path(f),
        ),
        staged_entry_views(r.entries@) == staged_entries(
            tree::entry_views(entries@),
            entries@.len() as int,
        ),
        text::texts(r.semantic_paths@) == text::texts(semantic_paths@),
{
    StagedExpectation {
        paths: expected_paths(&parsed.files),
        entries: expected_entries(entries),
        semantic_paths: clone_texts(semantic_paths),
    }
}

/// The diff of a file, as the unhashed description carries it.
#[derive(Debug)]
pub struct DiffFile {
    pub path: String,
    pub old_path: Option<String>,
    pub operation: &'static str,
    pub lines: Vec<GitDiffLine>,
}

/// A `DiffFile` as a value.
#[verifier::ext_equal]
pub struct DiffFileView {
    pub path: Seq<char>,
    pub old_path: Option<Seq<char>>,
    pub operation: Seq<char>,
    pub lines: Seq<line_units::DiffLineView>,
}

impl View for DiffFile {
    type V = DiffFileView;

    open spec fn view(&self) -> DiffFileView {
        DiffFileView {
            path: self.path@,
            old_path: text::opt_text(self.old_path),
            operation: self.operation@,
            lines: line_units::diff_views(self.lines@),
        }
    }
}

/// The unhashed description of a commit.
#[derive(Debug)]
pub struct GitMetadata {
    pub repository: String,
    pub sha: String,
    pub short_sha: String,
    /// Written out only where there is one.
    pub diff_lines: Vec<DiffFile>,
    /// Written out only where true.
    pub empty_commit: bool,
    /// Written out only where true.
    pub empty_merge: bool,
}

/// The lower-case name of a file operation.
pub open spec fn operation_word(op: FileOperation) -> Seq<char> {
    match op {
        FileOperation::Added => "added"@,
        FileOperation::Modified => "modified"@,
        FileOperation::Deleted => "deleted"@,
        FileOperation::Renamed => "renamed"@,
        FileOperation::Copied => "copied"@,
    }
}

fn word_of(op: FileOperation) -> (r: &'static str)
    ensures
        r@ == operation_word(op),
{
    match op {
        FileOperation::Added => "added",
        FileOperation::Modified => "modified",
        FileOperation::Deleted => "deleted",
        FileOperation::Renamed => "renamed",
        FileOperation::Copied => "copied",
    }
}

/// The views of a list of file diffs.
pub open spec fn diff_file_views(v: Seq<DiffFile>) -> Seq<DiffFileView> {
    v.map_values(|f: DiffFile| f@)
}

/// The diffs of the first `n` files: of those that have diff lines.
pub open spec fn diff_files(fs: Seq<commit::ParsedFileView>, n: int) -> Seq<DiffFileView>
    decreases n,
{
    if n <= 0 {
        seq![]
    } else {
        match fs[n - 1].diff_lines {
            Some(lines) => diff_files(fs, n - 1).push(
                DiffFileView {
                    path: fs[n - 1].path,
                    old_path: fs[n - 1].old_path,
                    operation: operation_word(fs[n - 1].operation),
                    lines,
                },
            ),
            None => diff_files(fs, n - 1),
        }
    }
}

fn collect_diffs(files: &Vec<ParsedFile>) -> (r: Vec<DiffFile>)
    ensures
        diff_file_views(r@) == diff_files(commit::file_views(files@), files@.len() as int),
{
    let ghost fs = commit::file_views(files@);
    let mut out: Vec<DiffFile> = Vec::new();
    let mut i: usize = 0;
    assert(diff_file_views(out@) =~= diff_files(fs, 0));
    while i < files.len()
        invariant
            i <= files@.len(),
            fs == commit::file_views(files@),
            diff_file_views(out@) == diff_files(fs, i as int),
        decreases files@.len() - i,
    {
        let file: &ParsedFile = &files[i];
        assert(fs[i as int] == file@);
        if let Some(lines) = &file.diff_lines {
            let d = DiffFile {
                path: file.path.as_str().to_owned(),
                old_path: clone_text(&file.old_path),
                operation: word_of(file.operation),
                lines: clone_diff_lines(lines),
            };
            let ghost dv = d@;
            let ghost before = diff_file_views(out@);
            out.push(d);
            assert(diff_file_views(out@) =~= before.push(dv));
        }
        i += 1;
    }
    out
}

/// Describe a commit.
pub fn build_git_metadata(
    repo_name: &str,
    parsed: &ParsedCommit,
    is_empty: bool,
    is_merge: bool,
) -> (r: GitMetadata)
    ensures
        r.repository@ == repo_name@,
        r.sha@ == parsed.git_sha@,
        r.short_sha@ == parsed.short_sha@,
        diff_file_views(r.diff_lines@) == diff_files(
            commit::file_views(parsed.files@),
            parsed.files@.len() as int,
        ),
        r.empty_commit == is_empty,
        r.empty_merge == is_merge,
{
    GitMetadata {
        repository: repo_name.to_owned(),
        sha: parsed.git_sha.as_str().to_owned(),
        short_sha: parsed.short_sha.as_str().to_owned(),
        diff_lines: collect_diffs(&parsed.files),
        empty_commit: is_empty,
        empty_merge: is_merge,
    }
}

/// Facts tell commits apart: facts that state two commits were taken from the
/// same object, with the same tree and the same parents.
pub proof fn distinct_commits_stay_distinct(f: ForeignCommitFacts, a: ParsedCommit, b: ParsedCommit)
    requires
        states_commit(f, a),
        states_commit(f, b),
    ensures
        a.raw_object@ == b.raw_object@,
        oid::read_oid(a.tree_oid@) == oid::read_oid(b.tree_oid@),
        oid::read_oid(a.git_sha@) == oid::read_oid(b.git_sha@),
        a.parent_oids@.len() == b.parent_oids@.len(),
        a.metadata.author_name@ == b.metadata.author_name@,
        a.metadata.author_time == b.metadata.author_time,
        a.metadata.committer_name@ == b.metadata.committer_name@,
        a.metadata.committer_time == b.metadata.committer_time,
{
    oid::lemma_hex_injective(a.raw_object@, b.raw_object@);
    oid::lemma_hex_injective(oid::read_oid(a.tree_oid@), oid::read_oid(b.tree_oid@));
    oid::lemma_hex_injective(oid::read_oid(a.git_sha@), oid::read_oid(b.git_sha@));
    assert(hex_names(text::texts(a.parent_oids@)).len() == a.parent_oids@.len());
    assert(hex_names(text::texts(b.parent_oids@)).len() == b.parent_oids@.len());
}

/// What is staged is the tree without what is excluded: nothing else is left
/// out, nothing is changed, and the order stays.
pub proof fn staged_entries_are_the_tree(es: Seq<tree::EntryView>, n: int, k: int)
    requires
        0 <= n <= es.len(),
        0 <= k < n,
        !es[k].excluded,
    ensures
        exists|j: int|
            0 <= j < staged_entries(es, n).len() && (#[trigger] staged_entries(es, n)[j]) == (
            StagedEntryView {
                path: es[k].path,
                bytes: es[k].bytes,
                mode: es[k].mode,
                kind: es[k].kind,
            }),
        staged_entries(es, n).len() <= n,
    decreases n,
{
    let all = staged_entries(es, n);
    let head = staged_entries(es, n - 1);
    lemma_staged_len(es, n);
    let want = StagedEntryView {
        path: es[k].path,
        bytes: es[k].bytes,
        mode: es[k].mode,
        kind: es[k].kind,
    };
    if k < n - 1 {
        staged_entries_are_the_tree(es, n - 1, k);
        let j = choose|j: int| 0 <= j < head.len() && #[trigger] head[j] == want;
        assert(all[j] == want);
    } else {
        assert(all[head.len() as int] == want);
    }
}

proof fn lemma_staged_len(es: Seq<tree::EntryView>, n: int)
    requires
        0 <= n <= es.len(),
    ensures
        staged_entries(es, n).len() <= n,
    decreases n,
{
    if n > 0 {
        lemma_staged_len(es, n - 1);
    }
}

} // verus!
