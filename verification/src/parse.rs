//! How the deltas of a Git diff become the files of a parsed commit.
use crate::commit;
use crate::commit::{CommitMetadata, FileOperation, ParsedFile};
use crate::error::{git_error, CliError};
use crate::graph;
use crate::graph::Encoding;
use crate::line_units;
use crate::line_units::{clone_bytes, clone_diff_lines, GitDiffLine};
use crate::message;
use crate::message::{parse_commit_message, parse_push_trailer};
use crate::oid;
use crate::oid::{git_algorithm_for_sha, git_object_id, hex_of, oid_bytes_as_hex};
use crate::paths;
use crate::paths::less_text;
use crate::text;
use crate::text::{chars_of, lines, reversed, split_on, string_of};
use vstd::hash_map::StringHashMap;
use vstd::prelude::*;
use vstd::utf8;

verus! {

/// The mode of a file in a Git diff.
#[derive(Clone, Copy, Debug, PartialEq, Eq, Structural)]
pub enum GitFileMode {
    Unreadable,
    Tree,
    Blob,
    BlobGroupWritable,
    BlobExecutable,
    Link,
    Commit,
}

/// The canonical mode of a file.
pub open spec fn canonical_mode(m: GitFileMode) -> u32 {
    match m {
        GitFileMode::Tree => 0o040000,
        GitFileMode::Blob | GitFileMode::BlobGroupWritable => 0o100644,
        GitFileMode::BlobExecutable => 0o100755,
        GitFileMode::Link => 0o120000,
        GitFileMode::Commit => 0o160000,
        GitFileMode::Unreadable => 0,
    }
}

/// The canonical mode of a file.
pub fn canonical_git_mode(m: GitFileMode) -> (r: u32)
    ensures
        r == canonical_mode(m),
{
    match m {
        GitFileMode::Tree => 0o040000,
        GitFileMode::Blob => 0o100644,
        GitFileMode::BlobGroupWritable => 0o100644,
        GitFileMode::BlobExecutable => 0o100755,
        GitFileMode::Link => 0o120000,
        GitFileMode::Commit => 0o160000,
        GitFileMode::Unreadable => 0,
    }
}

/// What a Git diff says happened to a file.
#[derive(Clone, Copy, Debug, PartialEq, Eq, Structural)]
pub enum DeltaStatus {
    Added,
    Modified,
    Deleted,
    Renamed,
    Copied,
    Typechange,
    Other,
}

/// Whether a delta deletes its file.
pub fn operation_is_delete(status: DeltaStatus) -> (r: bool)
    ensures
        r == (status == DeltaStatus::Deleted),
{
    status == DeltaStatus::Deleted
}

/// One delta of a Git diff; paths are in the form in which they are kept.
#[derive(Debug)]
pub struct DeltaFacts {
    pub status: DeltaStatus,
    pub new_mode: GitFileMode,
    pub old_mode: GitFileMode,
    pub new_path: Option<String>,
    pub old_path: Option<String>,
}

/// Whether the bytes of a path have to be escaped to be kept as text: one of
/// them is not printable, or is a percent sign.
pub open spec fn needs_escape(raw: Seq<u8>) -> bool {
    exists|i: int| 0 <= i < raw.len() && !(33 <= (#[trigger] raw[i]) <= 126 && raw[i] != 37)
}

/// Whether the bytes of a path have to be escaped to be kept as text.
pub fn needs_escaping(raw: &[u8]) -> (r: bool)
    ensures
        r == needs_escape(raw@),
{
    let mut i: usize = 0;
    while i < raw.len()
        invariant
            i <= raw@.len(),
            forall|k: int| 0 <= k < i ==> 33 <= (#[trigger] raw@[k]) <= 126 && raw@[k] != 37,
        decreases raw@.len() - i,
    {
        let b: u8 = raw[i];
        if !(33 <= b && b <= 126 && b != 37) {
            return true;
        }
        i += 1;
    }
    false
}

/// Whether a line of a diff is kept: added, removed and context lines are.
pub fn keeps_diff_line(origin: char) -> (r: bool)
    ensures
        r == kept_origin(origin),
{
    origin == '+' || origin == '-' || origin == ' '
}

/// What to make of a delta.
#[derive(Debug)]
pub enum DeltaPlan {
    /// Nothing.
    Skip,
    /// A submodule entry.
    Gitlink { path: String, operation: FileOperation },
    /// A file. Its old content is found under its old path, or else under
    /// its path.
    File { path: String, operation: FileOperation, old_path: Option<String> },
}

/// A `DeltaPlan` as a value.
pub enum DeltaPlanView {
    Skip,
    Gitlink { path: Seq<char>, operation: FileOperation },
    File { path: Seq<char>, operation: FileOperation, old_path: Option<Seq<char>> },
}

impl View for DeltaPlan {
    type V = DeltaPlanView;

    open spec fn view(&self) -> DeltaPlanView {
        match self {
            DeltaPlan::Skip => DeltaPlanView::Skip,
            DeltaPlan::Gitlink { path, operation } => DeltaPlanView::Gitlink {
                path: path@,
                operation: *operation,
            },
            DeltaPlan::File { path, operation, old_path } => DeltaPlanView::File {
                path: path@,
                operation: *operation,
                old_path: text::opt_text(*old_path),
            },
        }
    }
}

/// The operation on a submodule entry.
pub open spec fn gitlink_operation(s: DeltaStatus) -> Option<FileOperation> {
    match s {
        DeltaStatus::Added => Some(FileOperation::Added),
        DeltaStatus::Modified => Some(FileOperation::Modified),
        DeltaStatus::Deleted => Some(FileOperation::Deleted),
        DeltaStatus::Renamed => Some(FileOperation::Renamed),
        _ => None,
    }
}

/// The operation on a file: a change of kind is a modification.
pub open spec fn file_operation(s: DeltaStatus) -> Option<FileOperation> {
    match s {
        DeltaStatus::Added => Some(FileOperation::Added),
        DeltaStatus::Modified => Some(FileOperation::Modified),
        DeltaStatus::Deleted => Some(FileOperation::Deleted),
        DeltaStatus::Renamed => Some(FileOperation::Renamed),
        DeltaStatus::Copied => Some(FileOperation::Copied),
        DeltaStatus::Typechange => Some(FileOperation::Modified),
        DeltaStatus::Other => None,
    }
}

/// What to make of a delta, or why the commit is refused.
pub open spec fn plan_of(d: DeltaFacts) -> Result<DeltaPlanView, Seq<char>> {
    let new_path = text::opt_text(d.new_path);
    let old_path = text::opt_text(d.old_path);
    if d.new_mode == GitFileMode::Commit || d.old_mode == GitFileMode::Commit {
        let path = if d.status == DeltaStatus::Deleted {
            old_path
        } else {
            new_path
        };
        match path {
            None => Ok(DeltaPlanView::Skip),
            Some(path) => match gitlink_operation(d.status) {
                Some(operation) => Ok(DeltaPlanView::Gitlink { path, operation }),
                None => Err("unsupported delta status for gitlink path '"@ + path + "'"@),
            },
        }
    } else {
        match file_operation(d.status) {
            None => Ok(DeltaPlanView::Skip),
            Some(operation) => Ok(
                DeltaPlanView::File {
                    path: match new_path {
                        Some(p) => p,
                        None => match old_path {
                            Some(p) => p,
                            None => seq![],
                        },
                    },
                    operation,
                    old_path: if operation == FileOperation::Renamed || operation
                        == FileOperation::Copied {
                        old_path
                    } else {
                        None
                    },
                },
            ),
        }
    }
}

fn copy_opt(o: &Option<String>) -> (r: Option<String>)
    ensures
        text::opt_text(r) == text::opt_text(*o),
{
    match o {
        Some(s) => Some(s.clone()),
        None => None,
    }
}

/// Decide what to make of a delta. Submodule entries are kept as entries of
/// their own; deltas that change nothing are skipped.
pub fn plan_delta(d: &DeltaFacts) -> (r: Result<DeltaPlan, CliError>)
    ensures
        match plan_of(*d) {
            Ok(v) => r matches Ok(p) && p@ == v,
            Err(m) => r matches Err(e) && e.is_git_error(m),
        },
{
    let gitlink: bool = canonical_git_mode(d.new_mode) == 0o160000 || canonical_git_mode(
        d.old_mode,
    ) == 0o160000;
    assert(gitlink == (d.new_mode == GitFileMode::Commit || d.old_mode == GitFileMode::Commit));
    if gitlink {
        let path = if operation_is_delete(d.status) {
            copy_opt(&d.old_path)
        } else {
            copy_opt(&d.new_path)
        };
        let path = match path {
            Some(p) => p,
            None => {
                return Ok(DeltaPlan::Skip);
            },
        };
        let operation = match d.status {
            DeltaStatus::Added => FileOperation::Added,
            DeltaStatus::Modified => FileOperation::Modified,
            DeltaStatus::Deleted => FileOperation::Deleted,
            DeltaStatus::Renamed => FileOperation::Renamed,
            _ => {
                let mut m: String = "unsupported delta status for gitlink path '".to_owned();
                m.append(&path);
                m.append("'");
                return Err(git_error(m));
            },
        };
        return Ok(DeltaPlan::Gitlink { path, operation });
    }
    let operation = match d.status {
        DeltaStatus::Added => FileOperation::Added,
        DeltaStatus::Modified => FileOperation::Modified,
        DeltaStatus::Deleted => FileOperation::Deleted,
        DeltaStatus::Renamed => FileOperation::Renamed,
        DeltaStatus::Copied => FileOperation::Copied,
        DeltaStatus::Typechange => FileOperation::Modified,
        DeltaStatus::Other => {
            return Ok(DeltaPlan::Skip);
        },
    };
    let path: String = match &d.new_path {
        Some(p) => p.clone(),
        None => match &d.old_path {
            Some(p) => p.clone(),
            None => String::new(),
        },
    };
    assert(d.new_path is None && d.old_path is None ==> path@ =~= Seq::<char>::empty());
    let old_path = if operation == FileOperation::Renamed || operation == FileOperation::Copied {
        copy_opt(&d.old_path)
    } else {
        None
    };
    Ok(DeltaPlan::File { path, operation, old_path })
}

/// Whether the previous state of a file is read.
pub open spec fn has_old_side(op: FileOperation) -> bool {
    op == FileOperation::Modified || op == FileOperation::Deleted || op == FileOperation::Renamed
}

/// The file that a planned delta becomes, with the contents that were found
/// for it.
pub open spec fn planned_file(
    path: Seq<char>,
    operation: FileOperation,
    old_path: Option<Seq<char>>,
    new_mode: GitFileMode,
    c: FileContentsView,
) -> commit::ParsedFileView {
    commit::ParsedFileView {
        path,
        operation,
        new_content: if operation == FileOperation::Deleted {
            None
        } else {
            c.new_content
        },
        old_content: if has_old_side(operation) {
            c.old_content
        } else {
            None
        },
        diff_lines: c.diff_lines,
        old_path,
        new_mode: if operation == FileOperation::Deleted {
            None
        } else {
            Some(canonical_mode(new_mode))
        },
        new_encoding: c.new_encoding,
        old_encoding: c.old_encoding,
    }
}

/// What was found for a file: its content in the commit's tree and in the
/// parent's, the encodings of both, and its lines in the diff.
#[derive(Debug)]
pub struct FileContents {
    pub new_content: Option<Vec<u8>>,
    pub old_content: Option<Vec<u8>>,
    pub diff_lines: Option<Vec<GitDiffLine>>,
    pub new_encoding: Encoding,
    pub old_encoding: Option<Encoding>,
}

/// A `FileContents` as a value.
#[verifier::ext_equal]
pub struct FileContentsView {
    pub new_content: Option<Seq<u8>>,
    pub old_content: Option<Seq<u8>>,
    pub diff_lines: Option<Seq<crate::line_units::DiffLineView>>,
    pub new_encoding: Encoding,
    pub old_encoding: Option<Encoding>,
}

impl View for FileContents {
    type V = FileContentsView;

    open spec fn view(&self) -> FileContentsView {
        FileContentsView {
            new_content: graph::opt_bytes(self.new_content),
            old_content: graph::opt_bytes(self.old_content),
            diff_lines: commit::opt_diff(self.diff_lines),
            new_encoding: self.new_encoding,
            old_encoding: self.old_encoding,
        }
    }
}

/// Make the file of a planned delta.
pub fn file_of_delta(
    path: String,
    operation: FileOperation,
    old_path: Option<String>,
    new_mode: GitFileMode,
    contents: FileContents,
) -> (r: ParsedFile)
    ensures
        r@ == planned_file(path@, operation, text::opt_text(old_path), new_mode, contents@),
{
    let deleted: bool = operation == FileOperation::Deleted;
    let old_side: bool = operation == FileOperation::Modified || deleted || operation
        == FileOperation::Renamed;
    ParsedFile {
        path,
        operation,
        new_content: if deleted {
            None
        } else {
            contents.new_content
        },
        old_content: if old_side {
            contents.old_content
        } else {
            None
        },
        diff_lines: contents.diff_lines,
        old_path,
        new_mode: if deleted {
            None
        } else {
            Some(canonical_git_mode(new_mode))
        },
        new_encoding: contents.new_encoding,
        old_encoding: contents.old_encoding,
    }
}

/// The text of a submodule's object id, as the bytes of its entry.
pub open spec fn target_bytes(id: Seq<u8>) -> Seq<u8> {
    utf8::encode_utf8(oid::hex_text(id))
}

/// The file that a submodule entry becomes.
pub open spec fn gitlink_file(
    path: Seq<char>,
    operation: FileOperation,
    new_id: Seq<u8>,
    old_id: Option<Seq<u8>>,
    new_encoding: Encoding,
    old_encoding: Option<Encoding>,
) -> commit::ParsedFileView {
    commit::ParsedFileView {
        path,
        operation,
        new_content: if operation == FileOperation::Deleted {
            None
        } else {
            Some(target_bytes(new_id))
        },
        old_content: match old_id {
            Some(id) => if has_old_side(operation) && id.len() == 20 {
                Some(target_bytes(id))
            } else {
                None
            },
            None => None,
        },
        diff_lines: None,
        old_path: None,
        new_mode: if operation == FileOperation::Deleted {
            None
        } else {
            Some(0o160000u32)
        },
        new_encoding,
        old_encoding,
    }
}

proof fn lemma_hex_width(id: Seq<u8>)
    ensures
        target_bytes(id).len() == 2 * id.len(),
    decreases id.len(),
{
    oid::lemma_hex_is_ascii(id);
    utf8::is_ascii_chars_encode_utf8(oid::hex_text(id));
}

/// The bytes of a submodule entry that names this object.
fn target_of(id: &Vec<u8>) -> (r: Result<Vec<u8>, CliError>)
    ensures
        id@.len() == 20 ==> r is Ok,
        r matches Ok(b) ==> b@ == target_bytes(id@) && (id@.len() == 20 || id@.len() == 32),
{
    let hex = hex_of(id);
    proof {
        lemma_hex_width(id@);
    }
    match git_algorithm_for_sha(&hex) {
        Ok(algorithm) => match git_object_id(algorithm, clone_bytes(id)) {
            Ok(tagged) => Ok(oid_bytes_as_hex(&tagged)),
            Err(e) => Err(e),
        },
        Err(e) => Err(e),
    }
}

/// Make the file of a submodule entry: its content is the text of the object
/// that it names.
pub fn file_of_gitlink(
    path: String,
    operation: FileOperation,
    new_id: &Vec<u8>,
    old_id: &Option<Vec<u8>>,
    new_encoding: Encoding,
    old_encoding: Option<Encoding>,
) -> (r: Result<ParsedFile, CliError>)
    requires
        new_id@.len() == 20,
        old_id matches Some(id) ==> id@.len() == 20,
    ensures
        r matches Ok(f) && f@ == gitlink_file(
            path@,
            operation,
            new_id@,
            graph::opt_bytes(*old_id),
            new_encoding,
            old_encoding,
        ),
{
    let deleted: bool = operation == FileOperation::Deleted;
    let new_content: Option<Vec<u8>> = if deleted {
        None
    } else {
        match target_of(new_id) {
            Ok(b) => Some(b),
            Err(e) => {
                return Err(e);
            },
        }
    };
    let old_side: bool = operation == FileOperation::Modified || deleted || operation
        == FileOperation::Renamed;
    let old_content: Option<Vec<u8>> = match old_id {
        Some(id) => if old_side {
            match target_of(id) {
                Ok(b) => Some(b),
                Err(_) => None,
            }
        } else {
            None
        },
        None => None,
    };
    Ok(
        ParsedFile {
            path,
            operation,
            new_content,
            old_content,
            diff_lines: None,
            old_path: None,
            new_mode: if deleted {
                None
            } else {
                Some(0o160000)
            },
            new_encoding,
            old_encoding,
        },
    )
}

/// The last file of a list that deletes this path.
pub open spec fn last_deletion(fs: Seq<commit::ParsedFileView>, path: Seq<char>) -> Option<int>
    decreases fs.len(),
{
    if fs.len() == 0 {
        None
    } else if fs.last().path == path && fs.last().operation == FileOperation::Deleted {
        Some(fs.len() - 1)
    } else {
        last_deletion(fs.drop_last(), path)
    }
}

/// A deletion and an addition of one path, as one modification.
pub open spec fn changed_kind(
    deleted: commit::ParsedFileView,
    added: commit::ParsedFileView,
) -> commit::ParsedFileView {
    commit::ParsedFileView {
        operation: FileOperation::Modified,
        new_content: added.new_content,
        new_mode: added.new_mode,
        new_encoding: added.new_encoding,
        ..deleted
    }
}

/// The files of a diff, where a path that was deleted and added again is one
/// modified file.
pub open spec fn normalized(fs: Seq<commit::ParsedFileView>) -> Seq<commit::ParsedFileView>
    decreases fs.len(),
{
    if fs.len() == 0 {
        seq![]
    } else {
        let head = normalized(fs.drop_last());
        let f = fs.last();
        if f.operation == FileOperation::Added {
            match last_deletion(head, f.path) {
                Some(k) => head.update(k, changed_kind(head[k], f)),
                None => head.push(f),
            }
        } else {
            head.push(f)
        }
    }
}

fn find_deletion(fs: &Vec<ParsedFile>, path: &String) -> (r: Option<usize>)
    ensures
        match last_deletion(commit::file_views(fs@), path@) {
            Some(k) => r matches Some(x) && x == k && 0 <= k < fs@.len(),
            None => r is None,
        },
{
    let ghost all = commit::file_views(fs@);
    let mut i: usize = fs.len();
    assert(all.take(i as int) =~= all);
    while i > 0
        invariant
            i <= fs@.len(),
            all == commit::file_views(fs@),
            last_deletion(all, path@) == last_deletion(all.take(i as int), path@),
        decreases i,
    {
        let ghost head = all.take(i as int);
        assert(head.last() == fs@[i - 1]@);
        assert(head.drop_last() =~= all.take(i as int - 1));
        if fs[i - 1].path == *path && fs[i - 1].operation == FileOperation::Deleted {
            return Some(i - 1);
        }
        i -= 1;
    }
    None
}

/// Take a path that was deleted and added again as one modified file.
pub fn normalize_files(files: Vec<ParsedFile>) -> (r: Vec<ParsedFile>)
    ensures
        commit::file_views(r@) == normalized(commit::file_views(files@)),
{
    let ghost raw = files@;
    let ghost all = commit::file_views(files@);
    let mut rest = reversed(files);
    let mut out: Vec<ParsedFile> = Vec::new();
    let ghost mut n: int = 0;
    assert(rest@.reverse() =~= raw.skip(0));
    assert(all.take(0) =~= Seq::<commit::ParsedFileView>::empty());
    assert(commit::file_views(out@) =~= Seq::<commit::ParsedFileView>::empty());
    while rest.len() > 0
        invariant
            0 <= n <= raw.len(),
            all == commit::file_views(raw),
            rest@.reverse() == raw.skip(n),
            commit::file_views(out@) == normalized(all.take(n)),
        decreases rest@.len(),
    {
        let ghost r0 = rest@;
        let ghost before = commit::file_views(out@);
        if let Some(f) = rest.pop() {
            assert(r0.reverse()[0] == f);
            assert(r0.reverse().len() == r0.len());
            assert(raw.skip(n).len() > 0);
            assert(raw.skip(n)[0] == raw[n]);
            assert(all[n] == f@);
            assert(rest@.reverse() =~= r0.reverse().drop_first());
            assert(raw.skip(n).drop_first() =~= raw.skip(n + 1));
            assert(all.take(n + 1).drop_last() =~= all.take(n));
            assert(all.take(n + 1).last() == f@);
            let ghost fv = f@;
            let found: Option<usize> = if f.operation == FileOperation::Added {
                find_deletion(&out, &f.path)
            } else {
                None
            };
            match found {
                Some(k) => {
                    let old = out.remove(k);
                    let ghost ov = old@;
                    assert(before[k as int] == ov);
                    let merged = ParsedFile {
                        operation: FileOperation::Modified,
                        new_content: f.new_content,
                        new_mode: f.new_mode,
                        new_encoding: f.new_encoding,
                        ..old
                    };
                    let ghost mv = merged@;
                    assert(mv =~= changed_kind(ov, fv));
                    out.insert(k, merged);
                    assert(commit::file_views(out@) =~= before.update(k as int, mv));
                },
                None => {
                    out.push(f);
                    assert(commit::file_views(out@) =~= before.push(fv));
                },
            }
            proof {
                n = n + 1;
            }
        }
    }
    assert(raw.skip(n).len() == 0);
    assert(all.take(n) =~= all);
    out
}

/// A delta of a Git diff, with what was found for it.
#[derive(Debug)]
pub struct ObservedDelta {
    pub facts: DeltaFacts,
    /// The object on the new side.
    pub new_id: Vec<u8>,
    /// The object that the parent's tree holds as a submodule at the path.
    pub old_id: Option<Vec<u8>>,
    pub new_content: Option<Vec<u8>>,
    pub old_content: Option<Vec<u8>>,
    pub new_encoding: Encoding,
    pub old_encoding: Option<Encoding>,
    /// The lines that the diff reports for the delta.
    pub lines: Vec<GitDiffLine>,
}

/// Whether a line of a diff is kept.
pub open spec fn kept_origin(origin: char) -> bool {
    origin == '+' || origin == '-' || origin == ' '
}

/// The kept ones of the first `n` lines of a delta.
pub open spec fn kept_lines(ls: Seq<line_units::DiffLineView>, n: int) -> Seq<line_units::DiffLineView>
    decreases n,
{
    if n <= 0 {
        seq![]
    } else if kept_origin(ls[n - 1].origin) {
        kept_lines(ls, n - 1).push(ls[n - 1])
    } else {
        kept_lines(ls, n - 1)
    }
}

/// The path that the lines of a delta belong to.
pub open spec fn line_path(d: DeltaFacts) -> Seq<char> {
    match text::opt_text(d.new_path) {
        Some(p) => p,
        None => match text::opt_text(d.old_path) {
            Some(p) => p,
            None => seq![],
        },
    }
}

/// The kept lines of a delta.
pub open spec fn own_lines(d: ObservedDelta) -> Seq<line_units::DiffLineView> {
    kept_lines(line_units::diff_views(d.lines@), d.lines@.len() as int)
}

/// The kept lines of the first `n` deltas that belong to a path.
pub open spec fn pooled(ds: Seq<ObservedDelta>, path: Seq<char>, n: int) -> Seq<line_units::DiffLineView>
    decreases n,
{
    if n <= 0 {
        seq![]
    } else if line_path(ds[n - 1].facts) == path {
        pooled(ds, path, n - 1) + own_lines(ds[n - 1])
    } else {
        pooled(ds, path, n - 1)
    }
}

/// The paths of the files among the first `n` deltas.
pub open spec fn file_paths(ds: Seq<ObservedDelta>, n: int) -> Seq<Seq<char>>
    decreases n,
{
    if n <= 0 {
        seq![]
    } else {
        match plan_of(ds[n - 1].facts) {
            Ok(DeltaPlanView::File { path, .. }) => file_paths(ds, n - 1).push(path),
            _ => file_paths(ds, n - 1),
        }
    }
}

/// The file of the delta numbered `k`, if it makes one, or why the diff is
/// refused. The lines of a path go to its first file.
pub open spec fn delta_file(ds: Seq<ObservedDelta>, k: int) -> Result<
    Option<commit::ParsedFileView>,
    Seq<char>,
> {
    let d = ds[k];
    match plan_of(d.facts) {
        Err(m) => Err(m),
        Ok(DeltaPlanView::Skip) => Ok(None),
        Ok(DeltaPlanView::Gitlink { path, operation }) => Ok(
            Some(
                gitlink_file(
                    path,
                    operation,
                    d.new_id@,
                    graph::opt_bytes(d.old_id),
                    d.new_encoding,
                    d.old_encoding,
                ),
            ),
        ),
        Ok(DeltaPlanView::File { path, operation, old_path }) => {
            let pool = pooled(ds, path, ds.len() as int);
            Ok(
                Some(
                    planned_file(
                        path,
                        operation,
                        old_path,
                        d.facts.new_mode,
                        FileContentsView {
                            new_content: graph::opt_bytes(d.new_content),
                            old_content: graph::opt_bytes(d.old_content),
                            diff_lines: if pool.len() == 0 || file_paths(ds, k).contains(path) {
                                None
                            } else {
                                Some(pool)
                            },
                            new_encoding: d.new_encoding,
                            old_encoding: d.old_encoding,
                        },
                    ),
                ),
            )
        },
    }
}

/// The files of the first `n` deltas, or why the diff is refused.
pub open spec fn delta_files(ds: Seq<ObservedDelta>, n: int) -> Result<
    Seq<commit::ParsedFileView>,
    Seq<char>,
>
    decreases n,
{
    if n <= 0 {
        Ok(seq![])
    } else {
        match delta_files(ds, n - 1) {
            Err(m) => Err(m),
            Ok(fs) => match delta_file(ds, n - 1) {
                Err(m) => Err(m),
                Ok(None) => Ok(fs),
                Ok(Some(f)) => Ok(fs.push(f)),
            },
        }
    }
}

proof fn lemma_delta_error_stays(ds: Seq<ObservedDelta>, n: int, m: int)
    requires
        0 <= n <= m,
        delta_files(ds, n) is Err,
    ensures
        delta_files(ds, m) == delta_files(ds, n),
    decreases m - n,
{
    if n < m {
        lemma_delta_error_stays(ds, n, m - 1);
    }
}

fn keep_lines(ls: &Vec<GitDiffLine>) -> (r: Vec<GitDiffLine>)
    ensures
        line_units::diff_views(r@) == kept_lines(line_units::diff_views(ls@), ls@.len() as int),
{
    let ghost all = line_units::diff_views(ls@);
    let mut out: Vec<GitDiffLine> = Vec::new();
    let mut i: usize = 0;
    assert(line_units::diff_views(out@) =~= kept_lines(all, 0));
    while i < ls.len()
        invariant
            i <= ls@.len(),
            all == line_units::diff_views(ls@),
            line_units::diff_views(out@) == kept_lines(all, i as int),
        decreases ls@.len() - i,
    {
        assert(all[i as int] == ls@[i as int]@);
        if keeps_diff_line(ls[i].origin) {
            let ghost before = line_units::diff_views(out@);
            let line = GitDiffLine {
                origin: ls[i].origin,
                content: clone_bytes(&ls[i].content),
                old_lineno: ls[i].old_lineno,
                new_lineno: ls[i].new_lineno,
            };
            let ghost lv = line@;
            assert(lv == all[i as int]);
            out.push(line);
            assert(line_units::diff_views(out@) =~= before.push(lv));
        }
        i += 1;
    }
    out
}

fn path_of_lines(d: &DeltaFacts) -> (r: String)
    ensures
        r@ == line_path(*d),
{
    match &d.new_path {
        Some(p) => p.clone(),
        None => match &d.old_path {
            Some(p) => p.clone(),
            None => {
                let s = String::new();
                assert(s@ =~= Seq::<char>::empty());
                s
            },
        },
    }
}

/// Pool the kept lines of all deltas by their paths.
fn pool_lines(deltas: &Vec<ObservedDelta>) -> (r: StringHashMap<Vec<GitDiffLine>>)
    ensures
        forall|p: Seq<char>|
            #![trigger r@.contains_key(p)]
            r@.contains_key(p) == (pooled(deltas@, p, deltas@.len() as int).len() > 0),
        forall|p: Seq<char>|
            #![trigger r@[p]]
            r@.contains_key(p) ==> line_units::diff_views(r@[p]@) == pooled(
                deltas@,
                p,
                deltas@.len() as int,
            ),
{
    let ghost ds = deltas@;
    let mut pool: StringHashMap<Vec<GitDiffLine>> = StringHashMap::new();
    let mut i: usize = 0;
    while i < deltas.len()
        invariant
            i <= deltas@.len(),
            ds == deltas@,
            forall|p: Seq<char>|
                #![trigger pool@.contains_key(p)]
                pool@.contains_key(p) == (pooled(ds, p, i as int).len() > 0),
            forall|p: Seq<char>|
                #![trigger pool@[p]]
                pool@.contains_key(p) ==> line_units::diff_views(pool@[p]@) == pooled(ds, p, i as int),
        decreases deltas@.len() - i,
    {
        let ghost before = pool@;
        let d: &ObservedDelta = &deltas[i];
        let mut kept = keep_lines(&d.lines);
        let ghost own = line_units::diff_views(kept@);
        assert(own == own_lines(*d));
        let path = path_of_lines(&d.facts);
        let ghost pv = path@;
        if kept.len() > 0 {
            assert(own.len() == kept@.len());
            let mut all: Vec<GitDiffLine> = match pool.get(&path) {
                Some(v) => clone_diff_lines(v),
                None => Vec::new(),
            };
            proof {
                if before.contains_key(pv) {
                    assert(line_units::diff_views(all@) == pooled(ds, pv, i as int));
                } else {
                    assert(pooled(ds, pv, i as int).len() == 0);
                    assert(line_units::diff_views(all@) =~= pooled(ds, pv, i as int));
                }
            }
            let ghost head = line_units::diff_views(all@);
            let ghost a0 = all@;
            let ghost k0 = kept@;
            all.append(&mut kept);
            assert(line_units::diff_views(all@) =~= head + own) by {
                assert(all@ =~= a0 + k0);
            }
            let ghost av = all@;
            pool.insert(path, all);
            assert(pool@ =~= before.insert(pv, pool@[pv]));
            assert(line_units::diff_views(pool@[pv]@) == pooled(ds, pv, i as int + 1));
        } else {
            assert(own.len() == 0);
            assert(pooled(ds, pv, i as int + 1) =~= pooled(ds, pv, i as int));
        }
        assert forall|p: Seq<char>| #![trigger pool@.contains_key(p)] pool@.contains_key(p) == (
        pooled(ds, p, i as int + 1).len() > 0) by {
            assert(before.contains_key(p) == (pooled(ds, p, i as int).len() > 0));
            if p != pv {
                assert(pooled(ds, p, i as int + 1) == pooled(ds, p, i as int));
            }
        }
        assert forall|p: Seq<char>|
            #![trigger pool@[p]]
            pool@.contains_key(p) implies line_units::diff_views(pool@[p]@) == pooled(
            ds,
            p,
            i as int + 1,
        ) by {
            if p != pv {
                assert(pool@[p] == before[p]);
                assert(before.contains_key(p));
                assert(pooled(ds, p, i as int + 1) == pooled(ds, p, i as int));
            } else if before.contains_key(p) && own.len() == 0 {
                assert(pool@[p] == before[p]);
            }
        }
        i += 1;
    }
    pool
}

/// Make the files of a diff from its deltas, in their order. A delta that
/// cannot be kept refuses the diff, and a path that was deleted and added
/// again is one modified file.
pub fn parse_diff_files(deltas: Vec<ObservedDelta>) -> (r: Result<Vec<ParsedFile>, CliError>)
    requires
        forall|k: int|
            0 <= k < deltas@.len() ==> (#[trigger] deltas@[k]).new_id@.len() == 20 && (
            deltas@[k].old_id matches Some(id) ==> id@.len() == 20),
    ensures
        match delta_files(deltas@, deltas@.len() as int) {
            Ok(fs) => r matches Ok(v) && commit::file_views(v@) == normalized(fs),
            Err(m) => r matches Err(e) && e.is_git_error(m),
        },
{
    let ghost ds = deltas@;
    let pool = pool_lines(&deltas);
    let mut rest = reversed(deltas);
    let mut files: Vec<ParsedFile> = Vec::new();
    let mut seen: StringHashMap<bool> = StringHashMap::new();
    let ghost mut n: int = 0;
    assert(rest@.reverse() =~= ds.skip(0));
    assert(commit::file_views(files@) =~= Seq::<commit::ParsedFileView>::empty());
    while rest.len() > 0
        invariant
            0 <= n <= ds.len(),
            ds == deltas@,
            rest@.reverse() == ds.skip(n),
            forall|k: int|
                0 <= k < ds.len() ==> (#[trigger] ds[k]).new_id@.len() == 20 && (
                ds[k].old_id matches Some(id) ==> id@.len() == 20),
            forall|p: Seq<char>|
                #![trigger pool@.contains_key(p)]
                pool@.contains_key(p) == (pooled(ds, p, ds.len() as int).len() > 0),
            forall|p: Seq<char>|
                #![trigger pool@[p]]
                pool@.contains_key(p) ==> line_units::diff_views(pool@[p]@) == pooled(
                    ds,
                    p,
                    ds.len() as int,
                ),
            forall|p: Seq<char>|
                #![trigger seen@.contains_key(p)]
                seen@.contains_key(p) == file_paths(ds, n).contains(p),
            delta_files(ds, n) == Ok::<Seq<commit::ParsedFileView>, Seq<char>>(
                commit::file_views(files@),
            ),
        decreases rest@.len(),
    {
        let ghost r0 = rest@;
        let ghost before = commit::file_views(files@);
        let ghost seen0 = seen@;
        if let Some(d) = rest.pop() {
            assert(r0.reverse()[0] == d);
            assert(r0.reverse().len() == r0.len());
            assert(ds.skip(n).len() > 0);
            assert(ds.skip(n)[0] == ds[n]);
            assert(rest@.reverse() =~= r0.reverse().drop_first());
            assert(ds.skip(n).drop_first() =~= ds.skip(n + 1));
            match plan_delta(&d.facts) {
                Err(e) => {
                    proof {
                        lemma_delta_error_stays(ds, n + 1, ds.len() as int);
                    }
                    return Err(e);
                },
                Ok(DeltaPlan::Skip) => {},
                Ok(DeltaPlan::Gitlink { path, operation }) => {
                    match file_of_gitlink(
                        path,
                        operation,
                        &d.new_id,
                        &d.old_id,
                        d.new_encoding,
                        d.old_encoding,
                    ) {
                        Ok(f) => {
                            let ghost fv = f@;
                            files.push(f);
                            assert(commit::file_views(files@) =~= before.push(fv));
                        },
                        Err(e) => {
                            return Err(e);
                        },
                    }
                },
                Ok(DeltaPlan::File { path, operation, old_path }) => {
                    let ghost pv = path@;
                    assert(seen@.contains_key(pv) == file_paths(ds, n).contains(pv));
                    assert(pool@.contains_key(pv) == (pooled(ds, pv, ds.len() as int).len() > 0));
                    let diff_lines: Option<Vec<GitDiffLine>> = if seen.contains_key(&path) {
                        None
                    } else {
                        match pool.get(&path) {
                            Some(v) => Some(clone_diff_lines(v)),
                            None => None,
                        }
                    };
                    seen.insert(path.clone(), true);
                    assert(seen@.dom() =~= seen0.dom().insert(pv));
                    let contents = FileContents {
                        new_content: d.new_content,
                        old_content: d.old_content,
                        diff_lines,
                        new_encoding: d.new_encoding,
                        old_encoding: d.old_encoding,
                    };
                    let f = file_of_delta(path, operation, old_path, d.facts.new_mode, contents);
                    let ghost fv = f@;
                    files.push(f);
                    assert(commit::file_views(files@) =~= before.push(fv));
                },
            }
            proof {
                let fewer = file_paths(ds, n);
                assert forall|p: Seq<char>| #![trigger seen@.contains_key(p)] seen@.contains_key(
                    p,
                ) == file_paths(ds, n + 1).contains(p) by {
                    assert(seen0.contains_key(p) == fewer.contains(p));
                    if let Ok(DeltaPlanView::File { path, .. }) = plan_of(ds[n].facts) {
                        lemma_push_contains(fewer, path, p);
                    }
                }
                n = n + 1;
            }
        }
    }
    assert(ds.skip(n).len() == 0);
    Ok(normalize_files(files))
}

proof fn lemma_push_contains(v: Seq<Seq<char>>, x: Seq<char>, p: Seq<char>)
    ensures
        v.push(x).contains(p) <==> v.contains(p) || p == x,
{
    if v.contains(p) {
        let i = choose|i: int| 0 <= i < v.len() && v[i] == p;
        assert(v.push(x)[i] == p);
    }
    assert(v.push(x)[v.len() as int] == x);
    if v.push(x).contains(p) {
        let i = choose|i: int| 0 <= i < v.push(x).len() && v.push(x)[i] == p;
        if i < v.len() {
            assert(v[i] == p);
        }
    }
}

/// One line of `git diff-tree --name-status` output.
#[derive(Debug)]
pub struct StatusLine {
    pub operation: FileOperation,
    pub path: String,
    pub old_path: Option<String>,
}

/// A `StatusLine` as a value.
#[verifier::ext_equal]
pub struct StatusLineView {
    pub operation: FileOperation,
    pub path: Seq<char>,
    pub old_path: Option<Seq<char>>,
}

impl View for StatusLine {
    type V = StatusLineView;

    open spec fn view(&self) -> StatusLineView {
        StatusLineView {
            operation: self.operation,
            path: self.path@,
            old_path: text::opt_text(self.old_path),
        }
    }
}

/// The views of a list of status lines.
pub open spec fn status_views(v: Seq<StatusLine>) -> Seq<StatusLineView> {
    v.map_values(|l: StatusLine| l@)
}

/// What one status line says: a letter, then one path, or for renames and
/// copies the old path and the new one, all parted by tabs.
pub open spec fn status_of(line: Seq<char>) -> Option<StatusLineView> {
    let parts = text::split_of(line, '\t');
    if parts[0].len() == 0 {
        None
    } else {
        let kind = parts[0][0];
        let plain = |operation: FileOperation| if parts.len() >= 2 {
            Some(StatusLineView { operation, path: parts[1], old_path: None })
        } else {
            None
        };
        let pair = |operation: FileOperation| if parts.len() >= 3 {
            Some(StatusLineView { operation, path: parts[2], old_path: Some(parts[1]) })
        } else {
            None
        };
        if kind == 'A' {
            plain(FileOperation::Added)
        } else if kind == 'M' {
            plain(FileOperation::Modified)
        } else if kind == 'D' {
            plain(FileOperation::Deleted)
        } else if kind == 'R' {
            pair(FileOperation::Renamed)
        } else if kind == 'C' {
            pair(FileOperation::Copied)
        } else {
            None
        }
    }
}

/// What a list of status lines says, in turn; lines that say nothing are
/// left out.
pub open spec fn statuses_of(ls: Seq<Seq<char>>) -> Seq<StatusLineView>
    decreases ls.len(),
{
    if ls.len() == 0 {
        seq![]
    } else {
        let head = statuses_of(ls.drop_last());
        match status_of(ls.last()) {
            Some(s) => head.push(s),
            None => head,
        }
    }
}

fn read_status(line: &String) -> (r: Option<StatusLine>)
    ensures
        match status_of(line@) {
            Some(v) => r matches Some(s) && s@ == v,
            None => r is None,
        },
{
    let parts = split_on(line, '\t');
    let ghost pv = text::texts(parts@);
    assert(pv.len() == parts@.len());
    proof {
        text::lemma_split_nonempty(line@, '\t');
    }
    assert(pv[0] == parts@[0]@);
    let status = chars_of(&parts[0]);
    if status.len() == 0 {
        return None;
    }
    let kind: char = status[0];
    let one = if kind == 'A' {
        Some(FileOperation::Added)
    } else if kind == 'M' {
        Some(FileOperation::Modified)
    } else if kind == 'D' {
        Some(FileOperation::Deleted)
    } else {
        None
    };
    if let Some(operation) = one {
        if parts.len() >= 2 {
            assert(pv[1] == parts@[1]@);
            return Some(StatusLine { operation, path: parts[1].clone(), old_path: None });
        }
        return None;
    }
    let two = if kind == 'R' {
        Some(FileOperation::Renamed)
    } else if kind == 'C' {
        Some(FileOperation::Copied)
    } else {
        None
    };
    if let Some(operation) = two {
        if parts.len() >= 3 {
            assert(pv[1] == parts@[1]@);
            assert(pv[2] == parts@[2]@);
            return Some(
                StatusLine {
                    operation,
                    path: parts[2].clone(),
                    old_path: Some(parts[1].clone()),
                },
            );
        }
    }
    None
}

/// Read the output of `git diff-tree --name-status`.
pub fn parse_name_status(output: &str) -> (r: Vec<StatusLine>)
    ensures
        status_views(r@) == statuses_of(text::lines_of(output@)),
{
    let ls = lines(output);
    let ghost all = text::texts(ls@);
    let mut out: Vec<StatusLine> = Vec::new();
    let mut i: usize = 0;
    assert(all.take(0) =~= Seq::<Seq<char>>::empty());
    assert(status_views(out@) =~= Seq::<StatusLineView>::empty());
    while i < ls.len()
        invariant
            i <= ls@.len(),
            all == text::texts(ls@),
            status_views(out@) == statuses_of(all.take(i as int)),
        decreases ls@.len() - i,
    {
        assert(all.take(i as int + 1).drop_last() =~= all.take(i as int));
        assert(all.take(i as int + 1).last() == ls@[i as int]@);
        if let Some(s) = read_status(&ls[i]) {
            let ghost before = status_views(out@);
            let ghost sv = s@;
            out.push(s);
            assert(status_views(out@) =~= before.push(sv));
        }
        i += 1;
    }
    assert(all.take(ls@.len() as int) =~= all);
    out
}

/// The file of a status line, with the contents and the mode that were found
/// for it.
pub open spec fn status_file(
    s: StatusLineView,
    new_mode: Option<u32>,
    c: FileContentsView,
) -> commit::ParsedFileView {
    commit::ParsedFileView {
        path: s.path,
        operation: s.operation,
        new_content: if s.operation == FileOperation::Deleted {
            None
        } else {
            c.new_content
        },
        old_content: if has_old_side(s.operation) {
            c.old_content
        } else {
            None
        },
        diff_lines: None,
        old_path: s.old_path,
        new_mode: if s.operation == FileOperation::Deleted {
            None
        } else {
            new_mode
        },
        new_encoding: c.new_encoding,
        old_encoding: c.old_encoding,
    }
}

/// Make the file of a status line.
pub fn file_of_status(s: StatusLine, new_mode: Option<u32>, contents: FileContents) -> (r:
    ParsedFile)
    ensures
        r@ == status_file(s@, new_mode, contents@),
{
    let deleted: bool = s.operation == FileOperation::Deleted;
    let old_side: bool = s.operation == FileOperation::Modified || deleted || s.operation
        == FileOperation::Renamed;
    ParsedFile {
        path: s.path,
        operation: s.operation,
        new_content: if deleted {
            None
        } else {
            contents.new_content
        },
        old_content: if old_side {
            contents.old_content
        } else {
            None
        },
        diff_lines: None,
        old_path: s.old_path,
        new_mode: if deleted {
            None
        } else {
            new_mode
        },
        new_encoding: contents.new_encoding,
        old_encoding: contents.old_encoding,
    }
}

/// What was found for a status line.
#[derive(Debug)]
pub struct StatusContents {
    /// The mode at the path in the commit's tree.
    pub new_mode: Option<u32>,
    pub contents: FileContents,
}

/// The files of a list of status lines.
pub open spec fn status_files(ss: Seq<StatusLineView>, found: Seq<StatusContents>) -> Seq<
    commit::ParsedFileView,
> {
    Seq::new(
        ss.len(),
        |k: int| status_file(ss[k], found[k].new_mode, found[k].contents@),
    )
}

/// Make the files of a diff from the output of `git diff-tree --name-status`
/// and what was found for each of its lines.
pub fn parse_diff_files_via_git_cli(output: &str, found: Vec<StatusContents>) -> (r: Vec<
    ParsedFile,
>)
    requires
        found@.len() == statuses_of(text::lines_of(output@)).len(),
    ensures
        commit::file_views(r@) == status_files(statuses_of(text::lines_of(output@)), found@),
{
    let ghost ss = statuses_of(text::lines_of(output@));
    let ghost fs = found@;
    let statuses = parse_name_status(output);
    let ghost all = statuses@;
    assert(status_views(all).len() == all.len());
    let mut lines_left = reversed(statuses);
    let mut found_left = reversed(found);
    let mut out: Vec<ParsedFile> = Vec::new();
    let ghost want = status_files(ss, fs);
    let ghost mut n: int = 0;
    assert(lines_left@.reverse() =~= all.skip(0));
    assert(found_left@.reverse() =~= fs.skip(0));
    assert(commit::file_views(out@) =~= want.take(0));
    while lines_left.len() > 0
        invariant
            0 <= n <= all.len(),
            all.len() == fs.len(),
            ss == status_views(all),
            want == status_files(ss, fs),
            lines_left@.reverse() == all.skip(n),
            found_left@.reverse() == fs.skip(n),
            commit::file_views(out@) == want.take(n),
        decreases lines_left@.len(),
    {
        let ghost l0 = lines_left@;
        let ghost f0 = found_left@;
        let ghost before = commit::file_views(out@);
        assert(l0.reverse().len() == l0.len());
        assert(f0.reverse().len() == f0.len());
        assert(all.skip(n).len() == fs.skip(n).len());
        if let (Some(line), Some(c)) = (lines_left.pop(), found_left.pop()) {
            assert(l0.reverse()[0] == line && all.skip(n)[0] == all[n]);
            assert(f0.reverse()[0] == c && fs.skip(n)[0] == fs[n]);
            assert(ss[n] == line@);
            assert(lines_left@.reverse() =~= l0.reverse().drop_first());
            assert(found_left@.reverse() =~= f0.reverse().drop_first());
            assert(all.skip(n).drop_first() =~= all.skip(n + 1));
            assert(fs.skip(n).drop_first() =~= fs.skip(n + 1));
            let f = file_of_status(line, c.new_mode, c.contents);
            let ghost fv = f@;
            assert(fv == want[n]);
            out.push(f);
            assert(commit::file_views(out@) =~= before.push(fv));
            assert(commit::file_views(out@) =~= want.take(n + 1));
            proof {
                n = n + 1;
            }
        }
    }
    assert(all.skip(n).len() == 0);
    assert(want.take(n) =~= want);
    out
}

/// A delta between a merge and one of its other parents.
#[derive(Debug)]
pub struct SideDelta {
    /// Whether either side is a submodule entry.
    pub gitlink: bool,
    /// The path on the new side, or else on the old one.
    pub path: String,
    /// Whether the merge's tree holds the path.
    pub present: bool,
    /// What the merge's tree holds there.
    pub content: Option<Vec<u8>>,
    pub mode: Option<u32>,
    pub encoding: Encoding,
}

/// A `SideDelta` as a value.
#[verifier::ext_equal]
pub struct SideDeltaView {
    pub gitlink: bool,
    pub path: Seq<char>,
    pub present: bool,
    pub content: Option<Seq<u8>>,
    pub mode: Option<u32>,
    pub encoding: Encoding,
}

impl View for SideDelta {
    type V = SideDeltaView;

    open spec fn view(&self) -> SideDeltaView {
        SideDeltaView {
            gitlink: self.gitlink,
            path: self.path@,
            present: self.present,
            content: graph::opt_bytes(self.content),
            mode: self.mode,
            encoding: self.encoding,
        }
    }
}

/// The views of a list of side deltas.
pub open spec fn side_views(v: Seq<SideDelta>) -> Seq<SideDeltaView> {
    v.map_values(|d: SideDelta| d@)
}

/// Whether a side delta names a file of the merge.
pub open spec fn side_counts(d: SideDeltaView) -> bool {
    !d.gitlink && d.path.len() > 0
}

/// The file that a side delta becomes: modified where the merge holds it,
/// deleted where it does not.
pub open spec fn side_file(d: SideDeltaView) -> commit::ParsedFileView {
    commit::ParsedFileView {
        path: d.path,
        operation: if d.present {
            FileOperation::Modified
        } else {
            FileOperation::Deleted
        },
        new_content: if d.present {
            d.content
        } else {
            None
        },
        old_content: None,
        diff_lines: None,
        old_path: None,
        new_mode: if d.present {
            d.mode
        } else {
            None
        },
        new_encoding: d.encoding,
        old_encoding: None,
    }
}

/// The files with `f` at its place by path, instead of one with its path.
pub open spec fn with_file(
    fs: Seq<commit::ParsedFileView>,
    f: commit::ParsedFileView,
) -> Seq<commit::ParsedFileView>
    decreases fs.len(),
{
    if fs.len() == 0 {
        seq![f]
    } else if fs.last().path == f.path {
        fs.drop_last().push(f)
    } else if paths::text_less(fs.last().path, f.path) {
        fs.push(f)
    } else {
        with_file(fs.drop_last(), f).push(fs.last())
    }
}

/// The files with all of `more` at their places, in turn.
pub open spec fn with_all_files(
    fs: Seq<commit::ParsedFileView>,
    more: Seq<commit::ParsedFileView>,
) -> Seq<commit::ParsedFileView>
    decreases more.len(),
{
    if more.len() == 0 {
        fs
    } else {
        with_file(with_all_files(fs, more.drop_last()), more.last())
    }
}

/// The files with the files of all side deltas at their places, in turn.
pub open spec fn with_sides(
    fs: Seq<commit::ParsedFileView>,
    ds: Seq<SideDeltaView>,
) -> Seq<commit::ParsedFileView>
    decreases ds.len(),
{
    if ds.len() == 0 {
        fs
    } else {
        let head = with_sides(fs, ds.drop_last());
        if side_counts(ds.last()) {
            with_file(head, side_file(ds.last()))
        } else {
            head
        }
    }
}

/// The files of a merge: those against its first parent and those against
/// the others, by path, the later over the earlier.
pub open spec fn merged_files(
    first: Seq<commit::ParsedFileView>,
    sides: Seq<SideDeltaView>,
) -> Seq<commit::ParsedFileView> {
    with_sides(with_all_files(seq![], first), sides)
}

/// Whether files are in the order of their paths, each path once.
pub open spec fn by_path(fs: Seq<commit::ParsedFileView>) -> bool {
    forall|i: int, j: int|
        0 <= i < j < fs.len() ==> paths::text_less(
            #[trigger] fs[i].path,
            #[trigger] fs[j].path,
        )
}

proof fn lemma_with_file(fs: Seq<commit::ParsedFileView>, f: commit::ParsedFileView)
    requires
        by_path(fs),
    ensures
        by_path(with_file(fs, f)),
        forall|k: int|
            0 <= k < with_file(fs, f).len() ==> (#[trigger] with_file(fs, f)[k]).path == f.path
                || exists|m: int| 0 <= m < fs.len() && fs[m] == with_file(fs, f)[k],
    decreases fs.len(),
{
    let w = with_file(fs, f);
    if fs.len() > 0 {
        let head = fs.drop_last();
        let last = fs.last();
        if last.path == f.path {
            assert forall|i: int, j: int| 0 <= i < j < w.len() implies paths::text_less(
                #[trigger] w[i].path,
                #[trigger] w[j].path,
            ) by {
                assert(w[i] == fs[i]);
                assert(w[j].path == fs[j].path);
            }
            assert forall|k: int| 0 <= k < w.len() implies (#[trigger] w[k]).path == f.path
                || exists|m: int| 0 <= m < fs.len() && fs[m] == w[k] by {
                if k < head.len() {
                    assert(fs[k] == w[k]);
                }
            }
        } else if paths::text_less(last.path, f.path) {
            assert forall|i: int, j: int| 0 <= i < j < w.len() implies paths::text_less(
                #[trigger] w[i].path,
                #[trigger] w[j].path,
            ) by {
                assert(w[i] == fs[i]);
                if j < fs.len() {
                    assert(w[j] == fs[j]);
                } else if i < fs.len() - 1 {
                    assert(paths::text_less(fs[i].path, fs[fs.len() - 1].path));
                    paths::lemma_text_less_trans(fs[i].path, last.path, f.path);
                }
            }
            assert forall|k: int| 0 <= k < w.len() implies (#[trigger] w[k]).path == f.path
                || exists|m: int| 0 <= m < fs.len() && fs[m] == w[k] by {
                if k < fs.len() {
                    assert(fs[k] == w[k]);
                }
            }
        } else {
            assert forall|i: int, j: int| 0 <= i < j < head.len() implies paths::text_less(
                #[trigger] head[i].path,
                #[trigger] head[j].path,
            ) by {
                assert(paths::text_less(fs[i].path, fs[j].path));
            }
            lemma_with_file(head, f);
            paths::lemma_text_less_total(last.path, f.path);
            let h = with_file(head, f);
            assert(w == h.push(last));
            assert forall|k: int| 0 <= k < h.len() implies paths::text_less(
                (#[trigger] h[k]).path,
                last.path,
            ) by {
                if h[k].path != f.path {
                    let m = choose|m: int| 0 <= m < head.len() && head[m] == h[k];
                    assert(paths::text_less(fs[m].path, fs[fs.len() - 1].path));
                }
            }
            assert forall|i: int, j: int| 0 <= i < j < w.len() implies paths::text_less(
                #[trigger] w[i].path,
                #[trigger] w[j].path,
            ) by {
                assert(w[i] == h[i]);
                if j < h.len() {
                    assert(w[j] == h[j]);
                }
            }
            assert forall|k: int| 0 <= k < w.len() implies (#[trigger] w[k]).path == f.path
                || exists|m: int| 0 <= m < fs.len() && fs[m] == w[k] by {
                if k < h.len() {
                    assert(w[k] == h[k]);
                    if h[k].path != f.path {
                        let m = choose|m: int| 0 <= m < head.len() && head[m] == h[k];
                        assert(fs[m] == w[k]);
                    }
                } else {
                    assert(fs[fs.len() - 1] == w[k]);
                }
            }
        }
    }
}

proof fn lemma_with_all_files(fs: Seq<commit::ParsedFileView>, more: Seq<commit::ParsedFileView>)
    requires
        by_path(fs),
    ensures
        by_path(with_all_files(fs, more)),
    decreases more.len(),
{
    if more.len() > 0 {
        lemma_with_all_files(fs, more.drop_last());
        lemma_with_file(with_all_files(fs, more.drop_last()), more.last());
    }
}

proof fn lemma_with_sides(fs: Seq<commit::ParsedFileView>, ds: Seq<SideDeltaView>)
    requires
        by_path(fs),
    ensures
        by_path(with_sides(fs, ds)),
    decreases ds.len(),
{
    if ds.len() > 0 {
        lemma_with_sides(fs, ds.drop_last());
        if side_counts(ds.last()) {
            lemma_with_file(with_sides(fs, ds.drop_last()), side_file(ds.last()));
        }
    }
}

/// A merge names each path once, in the order of the paths, however its
/// parents' differences overlap.
pub proof fn merges_name_each_path_once(
    first: Seq<commit::ParsedFileView>,
    sides: Seq<SideDeltaView>,
)
    ensures
        by_path(merged_files(first, sides)),
{
    lemma_with_all_files(seq![], first);
    lemma_with_sides(with_all_files(seq![], first), sides);
}

fn place_file(fs: &mut Vec<ParsedFile>, f: ParsedFile)
    ensures
        commit::file_views(final(fs)@) == with_file(commit::file_views(old(fs)@), f@),
{
    let ghost start = commit::file_views(fs@);
    let ghost fv = f@;
    let mut i: usize = fs.len();
    assert(start.take(i as int) =~= start);
    assert(with_file(start.take(i as int), fv) + start.skip(i as int) =~= with_file(start, fv));
    while i > 0
        invariant
            i <= fs@.len(),
            fs@ == old(fs)@,
            start == commit::file_views(fs@),
            fv == f@,
            with_file(start.take(i as int), fv) + start.skip(i as int) == with_file(start, fv),
        decreases i,
    {
        let ghost head = start.take(i as int);
        assert(head.last() == fs@[i - 1]@);
        assert(head.drop_last() =~= start.take(i as int - 1));
        if fs[i - 1].path == f.path {
            let gone = fs.remove(i - 1);
            fs.insert(i - 1, f);
            assert(commit::file_views(fs@) =~= start.take(i as int - 1).push(fv) + start.skip(
                i as int,
            ));
            return;
        }
        if less_text(&fs[i - 1].path, &f.path) {
            fs.insert(i, f);
            assert(commit::file_views(fs@) =~= head.push(fv) + start.skip(i as int));
            return;
        }
        assert(with_file(start.take(i as int - 1), fv) + start.skip(i as int - 1) =~= with_file(
            head,
            fv,
        ) + start.skip(i as int));
        i -= 1;
    }
    assert(start.take(0) =~= Seq::<commit::ParsedFileView>::empty());
    fs.insert(0, f);
    assert(commit::file_views(fs@) =~= seq![fv] + start.skip(0));
}

/// The files of a merge: where the merge differs from any of its parents.
pub fn merge_files(first: Vec<ParsedFile>, sides: Vec<SideDelta>) -> (r: Vec<ParsedFile>)
    ensures
        commit::file_views(r@) == merged_files(commit::file_views(first@), side_views(sides@)),
{
    let ghost raw = first@;
    let ghost all = commit::file_views(first@);
    let mut rest = reversed(first);
    let mut out: Vec<ParsedFile> = Vec::new();
    let ghost mut n: int = 0;
    assert(rest@.reverse() =~= raw.skip(0));
    assert(all.take(0) =~= Seq::<commit::ParsedFileView>::empty());
    assert(commit::file_views(out@) =~= Seq::<commit::ParsedFileView>::empty());
    while rest.len() > 0
        invariant
            0 <= n <= raw.len(),
            all == commit::file_views(raw),
            rest@.reverse() == raw.skip(n),
            commit::file_views(out@) == with_all_files(seq![], all.take(n)),
        decreases rest@.len(),
    {
        let ghost r0 = rest@;
        if let Some(f) = rest.pop() {
            assert(r0.reverse()[0] == f);
            assert(r0.reverse().len() == r0.len());
            assert(raw.skip(n).len() > 0);
            assert(raw.skip(n)[0] == raw[n]);
            assert(all[n] == f@);
            assert(rest@.reverse() =~= r0.reverse().drop_first());
            assert(raw.skip(n).drop_first() =~= raw.skip(n + 1));
            assert(all.take(n + 1).drop_last() =~= all.take(n));
            assert(all.take(n + 1).last() == f@);
            place_file(&mut out, f);
            proof {
                n = n + 1;
            }
        }
    }
    assert(raw.skip(n).len() == 0);
    assert(all.take(n) =~= all);
    let ghost base = commit::file_views(out@);
    let ghost sides_raw = sides@;
    let ghost sv = side_views(sides@);
    let mut left = reversed(sides);
    let ghost mut k: int = 0;
    assert(left@.reverse() =~= sides_raw.skip(0));
    assert(sv.take(0) =~= Seq::<SideDeltaView>::empty());
    while left.len() > 0
        invariant
            0 <= k <= sides_raw.len(),
            sv == side_views(sides_raw),
            left@.reverse() == sides_raw.skip(k),
            commit::file_views(out@) == with_sides(base, sv.take(k)),
        decreases left@.len(),
    {
        let ghost r0 = left@;
        if let Some(d) = left.pop() {
            assert(r0.reverse()[0] == d);
            assert(r0.reverse().len() == r0.len());
            assert(sides_raw.skip(k).len() > 0);
            assert(sides_raw.skip(k)[0] == sides_raw[k]);
            assert(sv[k] == d@);
            assert(left@.reverse() =~= r0.reverse().drop_first());
            assert(sides_raw.skip(k).drop_first() =~= sides_raw.skip(k + 1));
            assert(sv.take(k + 1).drop_last() =~= sv.take(k));
            assert(sv.take(k + 1).last() == d@);
            let ghost dv = d@;
            if !d.gitlink && !d.path.as_str().is_empty() {
                let present: bool = d.present;
                let f = ParsedFile {
                    path: d.path,
                    operation: if present {
                        FileOperation::Modified
                    } else {
                        FileOperation::Deleted
                    },
                    new_content: if present {
                        d.content
                    } else {
                        None
                    },
                    old_content: None,
                    diff_lines: None,
                    old_path: None,
                    new_mode: if present {
                        d.mode
                    } else {
                        None
                    },
                    new_encoding: d.encoding,
                    old_encoding: None,
                };
                assert(f@ =~= side_file(dv));
                place_file(&mut out, f);
            }
            proof {
                k = k + 1;
            }
        }
    }
    assert(sides_raw.skip(k).len() == 0);
    assert(sv.take(k) =~= sv);
    out
}

/// What a commit says of one of the people behind it.
#[derive(Debug)]
pub struct Signature {
    /// The name, where it is UTF-8.
    pub name: Option<String>,
    /// The address, where it is UTF-8.
    pub email: Option<String>,
    pub name_bytes: Vec<u8>,
    pub email_bytes: Vec<u8>,
    /// Unix seconds.
    pub seconds: i64,
    pub offset_minutes: i32,
}

/// The name of a person, or what stands for it.
pub open spec fn shown_name(name: Option<Seq<char>>) -> Seq<char> {
    match name {
        Some(n) => n,
        None => "Unknown"@,
    }
}

/// Bytes, where there are any.
pub open spec fn bytes_or_none(b: Seq<u8>) -> Option<Seq<u8>> {
    if b.len() == 0 {
        None
    } else {
        Some(b)
    }
}

/// Whether Unix seconds can be represented as a date: from the start of the
/// year -262143 to the end of the year 262142.
pub open spec fn representable_time(seconds: i64) -> bool {
    -8_334_601_228_800 <= seconds <= 8_210_266_876_799
}

/// The date that `chrono`'s `Utc.timestamp_opt` makes of Unix seconds, given
/// back as Unix seconds. It makes one of every time between its first and its
/// last date, and that date lies at the given second.
#[verifier::external_body]
fn utc_second(seconds: i64) -> (r: Option<i64>)
    ensures
        match r {
            Some(t) => representable_time(seconds) && t == seconds,
            None => !representable_time(seconds),
        },
{
    match chrono::TimeZone::timestamp_opt(&chrono::Utc, seconds, 0) {
        chrono::offset::LocalResult::Single(t) => Some(t.timestamp()),
        _ => None,
    }
}

/// Whether the metadata of a commit are these.
pub open spec fn is_metadata(
    m: CommitMetadata,
    author: Signature,
    committer: Signature,
    seconds: i64,
    now: i64,
    full: Seq<char>,
) -> bool {
    &&& m.author_name@ == shown_name(text::opt_text(author.name))
    &&& text::opt_text(m.author_email) == text::opt_text(author.email)
    &&& m.author_name_raw@ == author.name_bytes@
    &&& graph::opt_bytes(m.author_email_raw) == bytes_or_none(author.email_bytes@)
    &&& m.timestamp == if representable_time(seconds) {
        seconds
    } else {
        now
    }
    &&& (m.message@, text::opt_text(m.description)) == message::message_parts(full)
    &&& m.author_time == author.seconds
    &&& m.author_time_offset_seconds == author.offset_minutes * 60
    &&& m.committer_name@ == shown_name(text::opt_text(committer.name))
    &&& text::opt_text(m.committer_email) == text::opt_text(committer.email)
    &&& m.committer_name_raw@ == committer.name_bytes@
    &&& graph::opt_bytes(m.committer_email_raw) == bytes_or_none(committer.email_bytes@)
    &&& m.committer_time == committer.seconds
    &&& m.committer_time_offset_seconds == committer.offset_minutes * 60
}

fn name_or_unknown(name: &Option<String>) -> (r: String)
    ensures
        r@ == shown_name(text::opt_text(*name)),
{
    match name {
        Some(n) => n.clone(),
        None => "Unknown".to_owned(),
    }
}

fn some_bytes(b: &Vec<u8>) -> (r: Option<Vec<u8>>)
    ensures
        graph::opt_bytes(r) == bytes_or_none(b@),
{
    if b.len() == 0 {
        None
    } else {
        Some(clone_bytes(b))
    }
}

/// The metadata of a commit: its people with their raw bytes and offsets,
/// its time (`now` where that is no date), its subject and its description.
pub fn extract_commit_metadata(
    author: &Signature,
    committer: &Signature,
    seconds: i64,
    now: i64,
    full: &str,
) -> (r: CommitMetadata)
    ensures
        is_metadata(r, *author, *committer, seconds, now, full@),
{
    let timestamp: i64 = match utc_second(seconds) {
        Some(t) => t,
        None => now,
    };
    let (message, description) = parse_commit_message(full);
    CommitMetadata {
        author_name: name_or_unknown(&author.name),
        author_email: copy_opt(&author.email),
        author_name_raw: clone_bytes(&author.name_bytes),
        author_email_raw: some_bytes(&author.email_bytes),
        timestamp,
        message,
        description,
        author_time: author.seconds,
        author_time_offset_seconds: author.offset_minutes as i64 * 60,
        committer_name: name_or_unknown(&committer.name),
        committer_email: copy_opt(&committer.email),
        committer_name_raw: clone_bytes(&committer.name_bytes),
        committer_email_raw: some_bytes(&committer.email_bytes),
        committer_time: committer.seconds,
        committer_time_offset_seconds: committer.offset_minutes as i64 * 60,
    }
}

/// The first eight characters of an id.
pub open spec fn short_id(sha: Seq<char>) -> Seq<char> {
    if sha.len() <= 8 {
        sha
    } else {
        sha.take(8)
    }
}

/// The first eight characters of an id.
pub fn short_sha(sha: &str) -> (r: String)
    ensures
        r@ == short_id(sha@),
{
    let cs = chars_of(sha);
    let n: usize = if cs.len() <= 8 {
        cs.len()
    } else {
        8
    };
    let r = string_of(&cs, 0, n);
    assert(r@ =~= short_id(sha@));
    r
}

/// What was read of a commit.
pub struct CommitFacts {
    pub sha: String,
    pub author: Signature,
    pub committer: Signature,
    /// The current time, which stands for a time that is no date.
    pub now: i64,
    /// The whole message.
    pub message: String,
    /// The view state that the text of its `Atomic-State` trailer decodes to,
    /// if it does.
    pub state: Option<message::Merkle>,
    /// The files against the first parent, or against nothing.
    pub files: Vec<ParsedFile>,
    /// Where the diff showed no file: what `git diff-tree` shows instead.
    pub fallback: Vec<ParsedFile>,
    /// The deltas against the other parents, in turn.
    pub sides: Vec<SideDelta>,
    pub parents: Vec<String>,
    /// The place of the first parent among the collected commits.
    pub parent_index: Option<usize>,
    pub committer_time: i64,
    pub tree: String,
    pub parent_tree: Option<String>,
    pub raw_object: Vec<u8>,
}

/// The files of a commit.
pub open spec fn commit_files(
    files: Seq<commit::ParsedFileView>,
    fallback: Seq<commit::ParsedFileView>,
    sides: Seq<SideDeltaView>,
    parents: nat,
) -> Seq<commit::ParsedFileView> {
    let own = if files.len() == 0 && parents > 0 {
        fallback
    } else {
        files
    };
    if parents > 1 {
        merged_files(own, sides)
    } else {
        own
    }
}

/// Put a parsed commit together: its metadata, the trailer of a push where
/// its message ends with one, its files, for a merge against all of its
/// parents, and what follows from them.
pub fn parse_commit(f: CommitFacts) -> (r: commit::ParsedCommit)
    ensures
        r.git_sha == f.sha,
        r.short_sha@ == short_id(f.sha@),
        is_metadata(r.metadata, f.author, f.committer, f.committer_time, f.now, f.message@),
        commit::file_views(r.files@) == commit_files(
            commit::file_views(f.files@),
            commit::file_views(f.fallback@),
            side_views(f.sides@),
            f.parents@.len(),
        ),
        r.parent_index == if f.parents@.len() > 0 {
            f.parent_index
        } else {
            None
        },
        r.parent_oids == f.parents,
        r.committer_time == f.committer_time,
        r.is_merge == (f.parents@.len() > 1),
        r.is_empty == (r.files@.len() == 0),
        message::opt_push_trailer(r.push_trailer) == message::push_trailer_of(f.message@, f.state),
        r.tree_oid == f.tree,
        r.parent_tree_oid == f.parent_tree,
        r.raw_object == f.raw_object,
{
    let short = short_sha(&f.sha);
    let metadata = extract_commit_metadata(
        &f.author,
        &f.committer,
        f.committer_time,
        f.now,
        &f.message,
    );
    let push_trailer = parse_push_trailer(&f.message, f.state);
    let is_merge: bool = f.parents.len() > 1;
    assert(commit::file_views(f.files@).len() == f.files@.len());
    let own = if f.files.len() == 0 && f.parents.len() > 0 {
        f.fallback
    } else {
        f.files
    };
    let files = if is_merge {
        merge_files(own, f.sides)
    } else {
        own
    };
    let is_empty: bool = files.len() == 0;
    commit::ParsedCommit {
        git_sha: f.sha,
        short_sha: short,
        metadata,
        files,
        parent_index: if f.parents.len() > 0 {
            f.parent_index
        } else {
            None
        },
        parent_oids: f.parents,
        committer_time: f.committer_time,
        is_merge,
        is_empty,
        push_trailer,
        tree_oid: f.tree,
        parent_tree_oid: f.parent_tree,
        raw_object: f.raw_object,
    }
}

/// The last file of a list with a path.
pub open spec fn file_named(fs: Seq<commit::ParsedFileView>, path: Seq<char>) -> Option<
    commit::ParsedFileView,
>
    decreases fs.len(),
{
    if fs.len() == 0 {
        None
    } else if fs.last().path == path {
        Some(fs.last())
    } else {
        file_named(fs.drop_last(), path)
    }
}

/// The last delta against a further parent that names a file with a path.
pub open spec fn side_named(ds: Seq<SideDeltaView>, path: Seq<char>) -> Option<SideDeltaView>
    decreases ds.len(),
{
    if ds.len() == 0 {
        None
    } else if ds.last().path == path && path.len() > 0 && !ds.last().gitlink {
        Some(ds.last())
    } else {
        side_named(ds.drop_last(), path)
    }
}

proof fn lemma_named_with(
    fs: Seq<commit::ParsedFileView>,
    f: commit::ParsedFileView,
    path: Seq<char>,
)
    ensures
        file_named(with_file(fs, f), path) == (if path == f.path {
            Some(f)
        } else {
            file_named(fs, path)
        }),
    decreases fs.len(),
{
    let r = with_file(fs, f);
    if fs.len() == 0 {
        assert(r.drop_last() =~= fs);
        assert(r.last() == f);
        assert(file_named(fs, path) is None);
    } else {
        let h = fs.drop_last();
        if fs.last().path == f.path {
            assert(r.drop_last() =~= h);
            assert(r.last() == f);
        } else if paths::text_less(fs.last().path, f.path) {
            assert(r.drop_last() =~= fs);
            assert(r.last() == f);
        } else {
            lemma_named_with(h, f, path);
            assert(r.drop_last() =~= with_file(h, f));
            assert(r.last() == fs.last());
        }
    }
}

proof fn lemma_named_with_all(
    fs: Seq<commit::ParsedFileView>,
    more: Seq<commit::ParsedFileView>,
    path: Seq<char>,
)
    ensures
        file_named(with_all_files(fs, more), path) == (if file_named(more, path) is Some {
            file_named(more, path)
        } else {
            file_named(fs, path)
        }),
    decreases more.len(),
{
    if more.len() > 0 {
        lemma_named_with_all(fs, more.drop_last(), path);
        lemma_named_with(with_all_files(fs, more.drop_last()), more.last(), path);
    }
}

/// The last parent that differs decides: a path that a further parent names
/// is modified, with the content that the merge holds, or deleted where it
/// holds none; every other path is what it is against the first parent.
pub proof fn the_last_side_decides(
    first: Seq<commit::ParsedFileView>,
    sides: Seq<SideDeltaView>,
    path: Seq<char>,
)
    ensures
        ({
            let f = file_named(merged_files(first, sides), path);
            match side_named(sides, path) {
                Some(d) => {
                    &&& f is Some
                    &&& f->0.operation == (if d.present {
                        FileOperation::Modified
                    } else {
                        FileOperation::Deleted
                    })
                    &&& f->0.new_content == (if d.present {
                        d.content
                    } else {
                        None
                    })
                    &&& f->0.new_mode == (if d.present {
                        d.mode
                    } else {
                        None
                    })
                    &&& f->0.old_path is None
                },
                None => f == file_named(first, path),
            }
        }),
    decreases sides.len(),
{
    let base = with_all_files(seq![], first);
    if sides.len() == 0 {
        lemma_named_with_all(seq![], first, path);
    } else {
        let head = sides.drop_last();
        the_last_side_decides(first, head, path);
        if side_counts(sides.last()) {
            lemma_named_with(with_sides(base, head), side_file(sides.last()), path);
        }
    }
}

/// The files of a list with a path, in order.
pub open spec fn files_at(fs: Seq<commit::ParsedFileView>, path: Seq<char>) -> Seq<
    commit::ParsedFileView,
>
    decreases fs.len(),
{
    if fs.len() == 0 {
        seq![]
    } else if fs.last().path == path {
        files_at(fs.drop_last(), path).push(fs.last())
    } else {
        files_at(fs.drop_last(), path)
    }
}

proof fn lemma_updated_at(
    fs: Seq<commit::ParsedFileView>,
    k: int,
    x: commit::ParsedFileView,
    path: Seq<char>,
)
    requires
        0 <= k < fs.len(),
        fs[k].path != path,
        x.path != path,
    ensures
        files_at(fs.update(k, x), path) == files_at(fs, path),
    decreases fs.len(),
{
    let u = fs.update(k, x);
    if k == fs.len() - 1 {
        assert(u.drop_last() =~= fs.drop_last());
    } else {
        assert(u.drop_last() =~= fs.drop_last().update(k, x));
        lemma_updated_at(fs.drop_last(), k, x, path);
    }
}

proof fn lemma_deletion_at(fs: Seq<commit::ParsedFileView>, path: Seq<char>, x: commit::ParsedFileView)
    requires
        x.path == path,
    ensures
        match last_deletion(fs, path) {
            Some(k) => {
                &&& 0 <= k < fs.len()
                &&& fs[k].path == path
                &&& last_deletion(files_at(fs, path), path) matches Some(j) && 0 <= j < files_at(
                    fs,
                    path,
                ).len() && files_at(fs, path)[j] == fs[k] && files_at(fs.update(k, x), path)
                    == files_at(fs, path).update(j, x)
            },
            None => last_deletion(files_at(fs, path), path) is None,
        },
    decreases fs.len(),
{
    if fs.len() > 0 {
        let h = fs.drop_last();
        let f = fs.last();
        let at = files_at(fs, path);
        lemma_deletion_at(h, path, x);
        if f.path == path {
            assert(at.drop_last() =~= files_at(h, path));
        }
        if let Some(k) = last_deletion(fs, path) {
            let u = fs.update(k, x);
            if f.path == path && f.operation == FileOperation::Deleted {
                assert(u.drop_last() =~= h);
                assert(files_at(u, path) =~= at.update(at.len() - 1, x));
            } else {
                let j = last_deletion(files_at(h, path), path)->0;
                assert(u.drop_last() =~= h.update(k, x));
                if f.path == path {
                    assert(files_at(u, path) =~= at.update(j, x));
                }
            }
        }
    }
}

/// Every path is put in order for itself, whatever stands between.
proof fn lemma_normalized_at(fs: Seq<commit::ParsedFileView>, path: Seq<char>)
    ensures
        files_at(normalized(fs), path) == normalized(files_at(fs, path)),
    decreases fs.len(),
{
    if fs.len() > 0 {
        let h = fs.drop_last();
        let f = fs.last();
        let head = normalized(h);
        let n = normalized(fs);
        lemma_normalized_at(h, path);
        lemma_deletion_at(head, f.path, f);
        if f.path == path {
            let at = files_at(fs, path);
            assert(at.drop_last() =~= files_at(h, path));
            if f.operation == FileOperation::Added && last_deletion(head, path) is Some {
                let k = last_deletion(head, path)->0;
                lemma_deletion_at(head, path, changed_kind(head[k], f));
            } else {
                assert(n.drop_last() =~= head);
            }
        } else {
            if f.operation == FileOperation::Added && last_deletion(head, f.path) is Some {
                let k = last_deletion(head, f.path)->0;
                lemma_updated_at(head, k, changed_kind(head[k], f), path);
            } else {
                assert(n.drop_last() =~= head);
            }
        }
    }
}

/// A path that is deleted and added again is one modified file, with what
/// was there before and what is there now; a path that is named once is left
/// as it is.
pub proof fn a_replaced_file_is_modified(fs: Seq<commit::ParsedFileView>, path: Seq<char>)
    ensures
        ({
            let was = files_at(fs, path);
            let now = files_at(normalized(fs), path);
            &&& was.len() <= 1 ==> now == was
            &&& was.len() == 2 && was[0].operation == FileOperation::Deleted && was[1].operation
                == FileOperation::Added ==> {
                &&& now.len() == 1
                &&& now[0].path == path
                &&& now[0].operation == FileOperation::Modified
                &&& now[0].old_content == was[0].old_content
                &&& now[0].old_encoding == was[0].old_encoding
                &&& now[0].new_content == was[1].new_content
                &&& now[0].new_mode == was[1].new_mode
                &&& now[0].new_encoding == was[1].new_encoding
            }
        }),
{
    let was = files_at(fs, path);
    lemma_normalized_at(fs, path);
    lemma_all_at(fs, path);
    if was.len() == 0 {
        assert(normalized(was) =~= was);
    } else if was.len() == 1 {
        assert(was.drop_last() =~= seq![]);
        reveal_with_fuel(normalized, 2);
        assert(normalized(was) =~= was);
    } else if was.len() == 2 {
        let one = was.drop_last();
        assert(one.drop_last() =~= seq![]);
        assert(was.last() == was[1] && one.last() == was[0]);
        reveal_with_fuel(normalized, 3);
        assert(normalized(one) =~= one);
        if was[0].operation == FileOperation::Deleted && was[1].operation
            == FileOperation::Added {
            assert(was[0].path == path && was[1].path == path);
            assert(last_deletion(one, path) == Some(0int));
        }
    }
}

proof fn lemma_all_at(fs: Seq<commit::ParsedFileView>, path: Seq<char>)
    ensures
        forall|i: int|
            0 <= i < files_at(fs, path).len() ==> (#[trigger] files_at(fs, path)[i]).path == path,
    decreases fs.len(),
{
    if fs.len() > 0 {
        lemma_all_at(fs.drop_last(), path);
    }
}

/// A status line names its paths: an addition, a change and a deletion their
/// one path; a rename and a copy the path that was and the one that is.
pub proof fn a_status_line_names_its_paths(kind: Seq<char>, a: Seq<char>, b: Seq<char>)
    requires
        kind.len() > 0,
        !kind.contains('\t'),
        !a.contains('\t'),
        !b.contains('\t'),
    ensures
        ({
            let one = status_of(kind + seq!['\t'] + a);
            let two = status_of(kind + seq!['\t'] + (a + seq!['\t'] + b));
            let plain = |op: FileOperation| Some(
                StatusLineView { operation: op, path: a, old_path: None },
            );
            let pair = |op: FileOperation| Some(
                StatusLineView { operation: op, path: b, old_path: Some(a) },
            );
            &&& kind[0] == 'A' ==> one == plain(FileOperation::Added)
            &&& kind[0] == 'M' ==> one == plain(FileOperation::Modified)
            &&& kind[0] == 'D' ==> one == plain(FileOperation::Deleted)
            &&& kind[0] == 'R' ==> two == pair(FileOperation::Renamed)
            &&& kind[0] == 'C' ==> two == pair(FileOperation::Copied)
        }),
{
    text::a_piece_ends_at_the_separator(kind, a, '\t');
    text::a_piece_ends_at_the_separator(a, b, '\t');
    text::a_piece_ends_at_the_separator(b, b, '\t');
    text::a_piece_ends_at_the_separator(kind, a + seq!['\t'] + b, '\t');
    assert(text::split_of(kind + seq!['\t'] + a, '\t') =~= seq![kind, a]);
    assert(text::split_of(kind + seq!['\t'] + (a + seq!['\t'] + b), '\t') =~= seq![kind, a, b]);
}

/// The kept lines of a delta are its added, removed and unchanged ones.
proof fn lemma_kept_filter(ls: Seq<line_units::DiffLineView>, n: int)
    requires
        0 <= n <= ls.len(),
    ensures
        kept_lines(ls, n) == ls.take(n).filter(
            |l: line_units::DiffLineView| l.origin == '+' || l.origin == '-' || l.origin == ' ',
        ),
    decreases n,
{
    reveal(Seq::filter);
    let keep = |l: line_units::DiffLineView| l.origin == '+' || l.origin == '-' || l.origin == ' ';
    if n > 0 {
        lemma_kept_filter(ls, n - 1);
        let t = ls.take(n);
        assert(t.drop_last() =~= ls.take(n - 1));
        assert(t.last() == ls[n - 1]);
        assert(t.filter(keep) == (if keep(t.last()) {
            t.drop_last().filter(keep).push(t.last())
        } else {
            t.drop_last().filter(keep)
        }));
    } else {
        assert(ls.take(0) =~= seq![]);
        assert(kept_lines(ls, 0) =~= ls.take(0).filter(keep));
    }
}

proof fn lemma_pool_of_one(ds: Seq<ObservedDelta>, path: Seq<char>, k: int, n: int)
    requires
        0 <= n <= ds.len(),
        0 <= k < ds.len(),
        line_path(ds[k].facts) == path,
        forall|j: int| 0 <= j < ds.len() && j != k ==> line_path((#[trigger] ds[j]).facts) != path,
    ensures
        pooled(ds, path, n) == (if n <= k {
            seq![]
        } else {
            own_lines(ds[k])
        }),
    decreases n,
{
    if n > 0 {
        lemma_pool_of_one(ds, path, k, n - 1);
        if n - 1 == k {
            assert(pooled(ds, path, n) =~= own_lines(ds[k]));
        } else {
            assert(line_path(ds[n - 1].facts) != path);
        }
    }
}

proof fn lemma_other_paths(ds: Seq<ObservedDelta>, path: Seq<char>, n: int)
    requires
        0 <= n <= ds.len(),
        forall|j: int| 0 <= j < n ==> line_path((#[trigger] ds[j]).facts) != path,
    ensures
        !file_paths(ds, n).contains(path),
    decreases n,
{
    let all = file_paths(ds, n);
    if n > 0 {
        lemma_other_paths(ds, path, n - 1);
        assert(line_path(ds[n - 1].facts) != path);
        let head = file_paths(ds, n - 1);
        if all.contains(path) {
            let j = choose|j: int| 0 <= j < all.len() && all[j] == path;
            if j < head.len() {
                assert(head[j] == path);
                assert(head.contains(path));
            }
        }
    } else {
        assert(all.len() == 0);
    }
}

/// A file gets its own lines: where no other delta is of its path, what a
/// file is told to have changed are the added, removed and unchanged lines of
/// its delta, in order, and no others; its content and its mode are those of
/// the new side, and a rename or a copy names the path it came from.
pub proof fn a_file_gets_its_own_lines(ds: Seq<ObservedDelta>, k: int)
    requires
        0 <= k < ds.len(),
        plan_of(ds[k].facts) matches Ok(p) && p is File,
        forall|j: int|
            0 <= j < ds.len() && j != k ==> line_path((#[trigger] ds[j]).facts) != line_path(
                ds[k].facts,
            ),
    ensures
        delta_file(ds, k) matches Ok(Some(f)) && ({
            let d = ds[k];
            let lines = line_units::diff_views(d.lines@).filter(
                |l: line_units::DiffLineView| l.origin == '+' || l.origin == '-' || l.origin == ' ',
            );
            &&& f.path == line_path(d.facts)
            &&& f.diff_lines == (if lines.len() == 0 {
                None
            } else {
                Some(lines)
            })
            &&& f.operation == FileOperation::Deleted ==> f.new_content is None && f.new_mode
                is None
            &&& f.operation != FileOperation::Deleted ==> f.new_content == graph::opt_bytes(
                d.new_content,
            )
            &&& f.operation == FileOperation::Modified ==> f.old_content == graph::opt_bytes(
                d.old_content,
            )
            &&& f.old_path is Some ==> f.operation == FileOperation::Renamed || f.operation
                == FileOperation::Copied
            &&& f.operation == FileOperation::Renamed ==> f.old_path == text::opt_text(
                d.facts.old_path,
            )
        }),
{
    let d = ds[k];
    let path = line_path(d.facts);
    let ls = line_units::diff_views(d.lines@);
    lemma_pool_of_one(ds, path, k, ds.len() as int);
    assert forall|j: int| 0 <= j < k implies line_path((#[trigger] ds[j]).facts) != path by {}
    lemma_other_paths(ds, path, k);
    lemma_kept_filter(ls, ls.len() as int);
    assert(ls.take(ls.len() as int) =~= ls);
}

} // verus!
