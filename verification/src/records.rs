//! Records of whole files, as an import builds them without a line diff.
use crate::graph::Encoding;
use crate::graph_first;
use crate::graph_first::{FileOps, LineOp};
use crate::line_units;
use crate::line_units::{clone_bytes, count_line_units};
use crate::parse::DeltaStatus;
use vstd::prelude::*;

verus! {

/// How many of the first `n` deltas have this status.
pub open spec fn status_count(ds: Seq<DeltaStatus>, s: DeltaStatus, n: int) -> nat
    decreases n,
{
    if n <= 0 {
        0
    } else {
        status_count(ds, s, n - 1) + if ds[n - 1] == s {
            1nat
        } else {
            0nat
        }
    }
}

/// Whether a diff is searched for renames: it both adds and deletes files,
/// and has no more pairs of them than the search is worth.
pub open spec fn worth_pairing(adds: nat, deletes: nat) -> bool {
    adds > 0 && deletes > 0 && adds * deletes <= 250_000
}

/// Whether a diff is searched for renames.
pub fn should_detect_renames(deltas: &Vec<DeltaStatus>) -> (r: bool)
    ensures
        r == worth_pairing(
            status_count(deltas@, DeltaStatus::Added, deltas@.len() as int),
            status_count(deltas@, DeltaStatus::Deleted, deltas@.len() as int),
        ),
{
    let mut adds: usize = 0;
    let mut deletes: usize = 0;
    let mut i: usize = 0;
    while i < deltas.len()
        invariant
            i <= deltas@.len(),
            adds <= i,
            deletes <= i,
            adds == status_count(deltas@, DeltaStatus::Added, i as int),
            deletes == status_count(deltas@, DeltaStatus::Deleted, i as int),
        decreases deltas@.len() - i,
    {
        if deltas[i] == DeltaStatus::Added {
            adds += 1;
        } else if deltas[i] == DeltaStatus::Deleted {
            deletes += 1;
        }
        i += 1;
    }
    if adds == 0 || deletes == 0 {
        return false;
    }
    match adds.checked_mul(deletes) {
        Some(pairs) => pairs <= 250_000,
        None => false,
    }
}

/// What was detected of a file.
#[derive(Clone, Copy, Debug, PartialEq, Eq, Structural)]
pub enum DetectionKind {
    Added,
    Modified,
    Deleted,
    Moved,
}

/// The stable identity and position of a file.
#[derive(Clone, Copy, Debug, PartialEq, Eq, Structural)]
pub struct FileBinding {
    pub inode: u64,
    pub change: u64,
    pub pos: u64,
}

/// The hunk of a whole-file record.
#[derive(Debug)]
pub enum WholeFileHunk {
    /// All of the content, as new text.
    Edit { encoding: Encoding, start: u64, end: u64 },
    /// All of the content in place of the deleted lines.
    Replace {
        encoding: Encoding,
        deleted_lines: Vec<usize>,
        new_lines: usize,
        start: u64,
        end: u64,
    },
}

/// How many parts a record's semantic layer adds.
#[derive(Clone, Copy, Debug, PartialEq, Eq, Structural)]
pub struct CrdtBuildStats {
    pub files_added: usize,
    pub lines_added: usize,
}

/// A record of a whole file.
#[derive(Debug)]
pub struct WholeFileRecord {
    pub path: String,
    pub kind: DetectionKind,
    pub binding: Option<FileBinding>,
    pub old_line_count: usize,
    pub encoding: Encoding,
    pub hunk: WholeFileHunk,
    pub content: Vec<u8>,
    /// The content is machine-written, and is kept as one piece.
    pub opaque_generated: bool,
    pub file_ops: Option<FileOps>,
    pub stats: Option<CrdtBuildStats>,
}

/// Whether `v` counts from zero to `n`, both included.
pub open spec fn counts_to(v: Seq<usize>, n: nat) -> bool {
    v.len() == n + 1 && forall|i: int| 0 <= i <= n ==> #[trigger] v[i] == i
}

/// Replace the whole content of a machine-written file: every old line and
/// the end of the file give way to the new content.
pub fn record_generated_full_replace(
    path: &str,
    new_content: &Vec<u8>,
    old_content: &Vec<u8>,
    binding: Option<FileBinding>,
) -> (r: WholeFileRecord)
    requires
        old_content@.len() < usize::MAX,
    ensures
        ({
            let old_lines = line_units::line_units(old_content@).len();
            &&& r.path@ == path@
            &&& r.kind == DetectionKind::Modified
            &&& r.binding == binding
            &&& r.old_line_count == old_lines
            &&& r.encoding == Encoding::Utf8
            &&& r.hunk matches WholeFileHunk::Replace {
                encoding,
                deleted_lines,
                new_lines,
                start,
                end,
            } && encoding == Encoding::Utf8 && counts_to(deleted_lines@, old_lines) && new_lines
                == line_units::line_units(new_content@).len() && start == 0 && end
                == new_content@.len()
            &&& r.content@ == new_content@
            &&& r.opaque_generated
            &&& r.file_ops is None
            &&& r.stats is None
        }),
{
    let old_lines: usize = count_line_units(old_content);
    let mut deleted_lines: Vec<usize> = Vec::new();
    let mut i: usize = 0;
    while i <= old_lines
        invariant
            i <= old_lines + 1,
            old_lines < usize::MAX,
            deleted_lines@.len() == i,
            forall|k: int| 0 <= k < i ==> #[trigger] deleted_lines@[k] == k,
        decreases old_lines + 1 - i,
    {
        deleted_lines.push(i);
        i += 1;
    }
    WholeFileRecord {
        path: path.to_owned(),
        kind: DetectionKind::Modified,
        binding,
        old_line_count: old_lines,
        encoding: Encoding::Utf8,
        hunk: WholeFileHunk::Replace {
            encoding: Encoding::Utf8,
            deleted_lines,
            new_lines: count_line_units(new_content),
            start: 0,
            end: new_content.len() as u64,
        },
        content: clone_bytes(new_content),
        opaque_generated: true,
        file_ops: None,
        stats: None,
    }
}

/// Whether `r` records all of `content` as new text.
pub open spec fn records_all(
    r: WholeFileRecord,
    path: Seq<char>,
    content: Seq<u8>,
    encoding: Encoding,
    kind: DetectionKind,
) -> bool {
    &&& r.path@ == path
    &&& r.kind == kind
    &&& r.binding is None
    &&& r.old_line_count == 0
    &&& r.encoding == encoding
    &&& r.hunk == (WholeFileHunk::Edit { encoding, start: 0, end: content.len() as u64 })
    &&& r.content@ == content
    &&& !r.opaque_generated
}

fn whole_edit(path: &str, content: &Vec<u8>, encoding: Encoding, kind: DetectionKind) -> (r:
    WholeFileRecord)
    ensures
        records_all(r, path@, content@, encoding, kind),
        r.file_ops is None,
        r.stats is None,
{
    WholeFileRecord {
        path: path.to_owned(),
        kind,
        binding: None,
        old_line_count: 0,
        encoding,
        hunk: WholeFileHunk::Edit { encoding, start: 0, end: content.len() as u64 },
        content: clone_bytes(content),
        opaque_generated: false,
        file_ops: None,
        stats: None,
    }
}

/// Record a text file whole, with the semantic layer that the diff lines of
/// the commit's file `file` describe. A binary file is not recorded so.
pub fn record_git_diff_add_fast(
    path: &str,
    content: &Vec<u8>,
    encoding: Encoding,
    file: usize,
    kind: DetectionKind,
) -> (r: Option<WholeFileRecord>)
    ensures
        r is None <==> encoding == Encoding::Binary,
        r matches Some(w) ==> records_all(w, path@, content@, encoding, kind) && (
        w.file_ops matches Some(ops) && ops@ == (graph_first::FileOpsView::FromDiff {
            path: path@,
            file,
        })) && w.stats is None,
{
    if encoding == Encoding::Binary {
        return None;
    }
    let mut w = whole_edit(path, content, encoding, kind);
    w.file_ops = Some(FileOps::FromDiff { path: path.to_owned(), file });
    Some(w)
}

/// The number of a line's branch, which has thirty-two bits.
pub open spec fn branch_of_line(i: int) -> u64 {
    (i % 0x1_0000_0000) as u64
}

/// The line operations of an added file of `n` lines: each line behind the
/// one before it, without its text.
pub open spec fn bare_line_ops(n: nat) -> Seq<graph_first::LineOpView> {
    Seq::new(
        n,
        |i: int|
            graph_first::LineOpView {
                branch_idx: branch_of_line(i),
                after: if i == 0 {
                    None
                } else {
                    Some(branch_of_line(i - 1))
                },
                content: None,
                line: (i + 1) as u64,
                content_range: None,
            },
    )
}

/// The semantic layer of an added file, line by line and without the text
/// of the lines, with what it adds.
pub fn build_linewise_crdt_ops_for_added_file(path: &str, content: &Vec<u8>, encoding: Encoding) -> (r:
    (FileOps, CrdtBuildStats))
    ensures
        r.0@ == (graph_first::FileOpsView::Created {
            file_idx: 0,
            path: path@,
            encoding: if encoding == Encoding::Binary {
                None
            } else {
                Some(encoding)
            },
            lines: bare_line_ops(line_units::line_units(content@).len()),
        }),
        r.1.files_added == 1,
        r.1.lines_added == line_units::line_units(content@).len(),
{
    let n: usize = count_line_units(content);
    let ghost want = bare_line_ops(n as nat);
    let mut lines: Vec<LineOp> = Vec::new();
    let mut i: usize = 0;
    assert(graph_first::line_op_views(lines@) =~= want.take(0));
    while i < n
        invariant
            i <= n,
            n <= content@.len(),
            want == bare_line_ops(n as nat),
            graph_first::line_op_views(lines@) == want.take(i as int),
        decreases n - i,
    {
        let idx: u64 = i as u64;
        let op = LineOp {
            branch_idx: idx % 0x1_0000_0000,
            after: if i == 0 {
                None
            } else {
                Some((idx - 1) % 0x1_0000_0000)
            },
            content: None,
            line: idx + 1,
            content_range: None,
        };
        let ghost ov = op@;
        assert(ov == want[i as int]);
        let ghost before = graph_first::line_op_views(lines@);
        lines.push(op);
        assert(graph_first::line_op_views(lines@) =~= before.push(ov));
        assert(graph_first::line_op_views(lines@) =~= want.take(i as int + 1));
        i += 1;
    }
    assert(want.take(i as int) =~= want);
    let ops = FileOps::Created {
        file_idx: 0,
        path: path.to_owned(),
        encoding: if encoding == Encoding::Binary {
            None
        } else {
            Some(encoding)
        },
        lines,
    };
    (ops, CrdtBuildStats { files_added: 1, lines_added: n })
}

/// Record an added text file whole, with a line-by-line semantic layer. A
/// binary file is not recorded so.
pub fn record_git_import_add_linewise(path: &str, content: &Vec<u8>, encoding: Encoding) -> (r: Option<
    WholeFileRecord,
>)
    ensures
        r is None <==> encoding == Encoding::Binary,
        r matches Some(w) ==> ({
            let n = line_units::line_units(content@).len();
            &&& records_all(w, path@, content@, encoding, DetectionKind::Added)
            &&& w.file_ops matches Some(ops) && ops@ == (graph_first::FileOpsView::Created {
                file_idx: 0,
                path: path@,
                encoding: Some(encoding),
                lines: bare_line_ops(n),
            })
            &&& w.stats matches Some(s) && s.files_added == 1 && s.lines_added == n
        }),
{
    if encoding == Encoding::Binary {
        return None;
    }
    let (ops, stats) = build_linewise_crdt_ops_for_added_file(path, content, encoding);
    let mut w = whole_edit(path, content, encoding, DetectionKind::Added);
    w.file_ops = Some(ops);
    w.stats = Some(stats);
    Some(w)
}

} // verus!
