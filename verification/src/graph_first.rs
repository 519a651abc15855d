//! The graph-first import: a change is built directly from what a commit did
//! to its files, with the graph positions that the line index knows.
use crate::commit;
use crate::commit::{import_lines, FileOperation, ParsedCommit, ParsedFile};
use crate::graph;
use crate::graph::{
    insert_hash, position_hashes, Atom, ContentHash, EdgeFlags, EdgeUpdate, Encoding, GraphNode,
    GraphOp, Insertion, NewEdge, Position,
};
use crate::line_index;
use crate::line_index::{
    ImportIndexedFile, ImportLine, ImportLineIndex, PendingLineIndexUpdate,
    PendingLineReplacement,
};
use crate::line_units;
use crate::line_units::{
    clone_byte_lines, clone_bytes, copy_bytes, current_state_replacements,
    is_generated_diff_skip_path, parse_git_diff_replacements, GitReplacementBlock,
};
use crate::paths;
use crate::paths::{
    ancestor_directories, extract_filename, extract_parent, insert_dirs, PathMap,
};
use crate::text;
use vstd::prelude::*;
use vstd::utf8;

verus! {

/// Why a file, or a whole commit, cannot be imported graph-first.
#[derive(Clone, Copy, Debug, PartialEq, Eq, Structural)]
pub enum SkipReason {
    EmptyCommit,
    MissingParentDirectoryAnchor,
    InvalidDirectoryPath,
    RenameMissingOldPath,
    RenameMissingLineIndex,
    RenameReplacementUnderflow,
    RenameReplacementOverflow,
    RenameReplacementOutOfBounds,
    DeleteMissingLineIndex,
    DeleteRequiresStructuralFileDel,
    ModifiedMissingLineIndex,
    ModifiedMissingNewContent,
    ModifiedMissingDiffLines,
    ModifiedReplacementUnderflow,
    ModifiedReplacementOverflow,
    ModifiedReplacementOutOfBounds,
    NoGraphHunks,
}

/// The name of a reason.
pub open spec fn reason_name(r: SkipReason) -> Seq<char> {
    match r {
        SkipReason::EmptyCommit => "empty_commit"@,
        SkipReason::MissingParentDirectoryAnchor => "missing_parent_directory_anchor"@,
        SkipReason::InvalidDirectoryPath => "invalid_directory_path"@,
        SkipReason::RenameMissingOldPath => "rename_missing_old_path"@,
        SkipReason::RenameMissingLineIndex => "rename_missing_line_index"@,
        SkipReason::RenameReplacementUnderflow => "rename_replacement_underflow"@,
        SkipReason::RenameReplacementOverflow => "rename_replacement_overflow"@,
        SkipReason::RenameReplacementOutOfBounds => "rename_replacement_out_of_bounds"@,
        SkipReason::DeleteMissingLineIndex => "delete_missing_line_index"@,
        SkipReason::DeleteRequiresStructuralFileDel => "delete_requires_structural_file_del"@,
        SkipReason::ModifiedMissingLineIndex => "modified_missing_line_index"@,
        SkipReason::ModifiedMissingNewContent => "modified_missing_new_content"@,
        SkipReason::ModifiedMissingDiffLines => "modified_missing_diff_lines"@,
        SkipReason::ModifiedReplacementUnderflow => "modified_replacement_underflow"@,
        SkipReason::ModifiedReplacementOverflow => "modified_replacement_overflow"@,
        SkipReason::ModifiedReplacementOutOfBounds => "modified_replacement_out_of_bounds"@,
        SkipReason::NoGraphHunks => "no_graph_hunks"@,
    }
}

impl SkipReason {
    /// The name of the reason.
    pub fn label(self) -> (r: &'static str)
        ensures
            r@ == reason_name(self),
    {
        match self {
            SkipReason::EmptyCommit => "empty_commit",
            SkipReason::MissingParentDirectoryAnchor => "missing_parent_directory_anchor",
            SkipReason::InvalidDirectoryPath => "invalid_directory_path",
            SkipReason::RenameMissingOldPath => "rename_missing_old_path",
            SkipReason::RenameMissingLineIndex => "rename_missing_line_index",
            SkipReason::RenameReplacementUnderflow => "rename_replacement_underflow",
            SkipReason::RenameReplacementOverflow => "rename_replacement_overflow",
            SkipReason::RenameReplacementOutOfBounds => "rename_replacement_out_of_bounds",
            SkipReason::DeleteMissingLineIndex => "delete_missing_line_index",
            SkipReason::DeleteRequiresStructuralFileDel => "delete_requires_structural_file_del",
            SkipReason::ModifiedMissingLineIndex => "modified_missing_line_index",
            SkipReason::ModifiedMissingNewContent => "modified_missing_new_content",
            SkipReason::ModifiedMissingDiffLines => "modified_missing_diff_lines",
            SkipReason::ModifiedReplacementUnderflow => "modified_replacement_underflow",
            SkipReason::ModifiedReplacementOverflow => "modified_replacement_overflow",
            SkipReason::ModifiedReplacementOutOfBounds => "modified_replacement_out_of_bounds",
            SkipReason::NoGraphHunks => "no_graph_hunks",
        }
    }
}

/// A file that cannot be imported graph-first.
#[derive(Debug)]
pub struct GraphFirstSkip {
    pub path: String,
    pub operation: FileOperation,
    pub reason: SkipReason,
}

/// A `GraphFirstSkip` as a value.
pub struct SkipView {
    pub path: Seq<char>,
    pub operation: FileOperation,
    pub reason: SkipReason,
}

impl View for GraphFirstSkip {
    type V = SkipView;

    open spec fn view(&self) -> SkipView {
        SkipView { path: self.path@, operation: self.operation, reason: self.reason }
    }
}

/// The views of a list of skips.
pub open spec fn skip_views(v: Seq<GraphFirstSkip>) -> Seq<SkipView> {
    v.map_values(|s: GraphFirstSkip| s@)
}

/// The skip of a file.
pub open spec fn file_skip(f: commit::ParsedFileView, reason: SkipReason) -> SkipView {
    SkipView { path: f.path, operation: f.operation, reason }
}

impl GraphFirstSkip {
    /// The skip of a file.
    pub fn new(file: &ParsedFile, reason: SkipReason) -> (r: GraphFirstSkip)
        ensures
            r@ == file_skip(file@, reason),
    {
        GraphFirstSkip { path: file.path.clone(), operation: file.operation, reason }
    }
}

/// One line of the semantic layer of an added file.
#[derive(Debug)]
pub struct LineOp {
    /// The branch of the line.
    pub branch_idx: u64,
    /// The branch before it.
    pub after: Option<u64>,
    /// The text of the line, where it is not empty.
    pub content: Option<Vec<u8>>,
    /// The number of the line.
    pub line: u64,
    /// Where the line stands in the content of the change.
    pub content_range: Option<(u64, u64)>,
}

/// A `LineOp` as a value.
pub struct LineOpView {
    pub branch_idx: u64,
    pub after: Option<u64>,
    pub content: Option<Seq<u8>>,
    pub line: u64,
    pub content_range: Option<(u64, u64)>,
}

impl View for LineOp {
    type V = LineOpView;

    open spec fn view(&self) -> LineOpView {
        LineOpView {
            branch_idx: self.branch_idx,
            after: self.after,
            content: graph::opt_bytes(self.content),
            line: self.line,
            content_range: self.content_range,
        }
    }
}

/// The views of a list of line operations.
pub open spec fn line_op_views(v: Seq<LineOp>) -> Seq<LineOpView> {
    v.map_values(|l: LineOp| l@)
}

/// The semantic layer of one file.
#[derive(Debug)]
pub enum FileOps {
    /// A new file, line by line; a binary one has no lines.
    Created { file_idx: u64, path: String, encoding: Option<Encoding>, lines: Vec<LineOp> },
    /// The operations that the diff lines of the file with this number in
    /// the commit describe.
    FromDiff { path: String, file: usize },
}

/// A `FileOps` as a value.
pub enum FileOpsView {
    Created { file_idx: u64, path: Seq<char>, encoding: Option<Encoding>, lines: Seq<LineOpView> },
    FromDiff { path: Seq<char>, file: usize },
}

impl View for FileOps {
    type V = FileOpsView;

    open spec fn view(&self) -> FileOpsView {
        match self {
            FileOps::Created { file_idx, path, encoding, lines } => FileOpsView::Created {
                file_idx: *file_idx,
                path: path@,
                encoding: *encoding,
                lines: line_op_views(lines@),
            },
            FileOps::FromDiff { path, file } => FileOpsView::FromDiff {
                path: path@,
                file: *file,
            },
        }
    }
}

/// The views of a list of file operations.
pub open spec fn file_op_views(v: Seq<FileOps>) -> Seq<FileOpsView> {
    v.map_values(|f: FileOps| f@)
}

/// A line without its line feed.
pub open spec fn chomped(line: Seq<u8>) -> Seq<u8> {
    if line.len() > 0 && line.last() == 10 {
        line.drop_last()
    } else {
        line
    }
}

/// The line operation of the `i`th line of an added file.
pub open spec fn added_line_op(
    lines: Seq<Seq<u8>>,
    ranges: Seq<(u64, u64)>,
    next_branch: u64,
    i: int,
) -> LineOpView {
    LineOpView {
        branch_idx: (next_branch + i) as u64,
        after: if i == 0 {
            None
        } else {
            Some((next_branch + i - 1) as u64)
        },
        content: if chomped(lines[i]).len() == 0 {
            None
        } else {
            Some(chomped(lines[i]))
        },
        line: (i + 1) as u64,
        content_range: if i < ranges.len() {
            Some(ranges[i])
        } else {
            None
        },
    }
}

/// The semantic layer of an added file.
pub open spec fn added_file_ops(
    path: Seq<char>,
    lines: Seq<Seq<u8>>,
    ranges: Seq<(u64, u64)>,
    encoding: Encoding,
    file_idx: u64,
    next_branch: u64,
) -> FileOpsView {
    if encoding == Encoding::Binary {
        FileOpsView::Created { file_idx, path, encoding: None, lines: seq![] }
    } else {
        FileOpsView::Created {
            file_idx,
            path,
            encoding: Some(encoding),
            lines: Seq::new(
                lines.len(),
                |i: int| added_line_op(lines, ranges, next_branch, i),
            ),
        }
    }
}

/// The first free branch after the semantic layer of an added file.
pub open spec fn branches_after(lines: nat, encoding: Encoding, next_branch: u64) -> u64 {
    if encoding == Encoding::Binary {
        next_branch
    } else {
        (next_branch + lines) as u64
    }
}

/// Build the semantic layer of an added file: one branch per line, numbered
/// on from `next_branch_idx`; a binary file gets none.
pub fn build_graph_first_file_ops_for_added_file(
    path: &str,
    content_lines: &Vec<Vec<u8>>,
    ranges: &Vec<(u64, u64)>,
    encoding: Encoding,
    file_idx: u64,
    next_branch_idx: &mut u64,
) -> (r: FileOps)
    requires
        *old(next_branch_idx) + content_lines@.len() <= u64::MAX,
        content_lines@.len() < u64::MAX,
    ensures
        r@ == added_file_ops(
            path@,
            graph::byte_views(content_lines@),
            ranges@,
            encoding,
            file_idx,
            *old(next_branch_idx),
        ),
        *final(next_branch_idx) == branches_after(
            content_lines@.len(),
            encoding,
            *old(next_branch_idx),
        ),
{
    let mut lines: Vec<LineOp> = Vec::new();
    if encoding == Encoding::Binary {
        assert(line_op_views(lines@) =~= Seq::<LineOpView>::empty());
        return FileOps::Created { file_idx, path: path.to_owned(), encoding: None, lines };
    }
    let first: u64 = *next_branch_idx;
    let ghost cl = graph::byte_views(content_lines@);
    let ghost want = Seq::new(
        cl.len(),
        |i: int| added_line_op(cl, ranges@, first, i),
    );
    let mut i: usize = 0;
    assert(line_op_views(lines@) =~= want.take(0));
    while i < content_lines.len()
        invariant
            i <= content_lines@.len(),
            content_lines@.len() < u64::MAX,
            cl == graph::byte_views(content_lines@),
            want == Seq::new(cl.len(), |i: int| added_line_op(cl, ranges@, first, i)),
            first + content_lines@.len() <= u64::MAX,
            *next_branch_idx == first + i,
            line_op_views(lines@) == want.take(i as int),
        decreases content_lines@.len() - i,
    {
        let ghost before = line_op_views(lines@);
        let line: &Vec<u8> = &content_lines[i];
        let n: usize = if line.len() > 0 && line[line.len() - 1] == 10 {
            line.len() - 1
        } else {
            line.len()
        };
        let content: Option<Vec<u8>> = if n == 0 {
            None
        } else {
            Some(copy_bytes(line, 0, n))
        };
        assert(line@.subrange(0, n as int) =~= chomped(cl[i as int]));
        let op = LineOp {
            branch_idx: *next_branch_idx,
            after: if i == 0 {
                None
            } else {
                Some(*next_branch_idx - 1)
            },
            content,
            line: i as u64 + 1,
            content_range: if i < ranges.len() {
                Some(ranges[i])
            } else {
                None
            },
        };
        let ghost ov = op@;
        assert(ov == want[i as int]);
        lines.push(op);
        assert(line_op_views(lines@) =~= before.push(ov));
        assert(line_op_views(lines@) =~= want.take(i as int + 1));
        *next_branch_idx = *next_branch_idx + 1;
        i += 1;
    }
    assert(want.take(i as int) =~= want);
    FileOps::Created { file_idx, path: path.to_owned(), encoding: Some(encoding), lines }
}

/// What the builder has gathered so far.
#[verifier::ext_equal]
pub struct BuildView {
    pub contents: Seq<u8>,
    pub hunks: Seq<graph::GraphOpView>,
    pub file_ops: Seq<FileOpsView>,
    pub next_file: u64,
    pub next_branch: u64,
    pub deps: Set<ContentHash>,
    pub pending: Seq<line_index::PendingView>,
    pub deleted: Seq<Seq<char>>,
    pub skips: Seq<SkipView>,
    pub anchors: Map<Seq<char>, Position>,
}

/// A change under construction.
pub struct GraphBuilder {
    pub contents: Vec<u8>,
    pub hunks: Vec<GraphOp>,
    pub file_ops: Vec<FileOps>,
    pub next_file: u64,
    pub next_branch: u64,
    pub deps: Vec<ContentHash>,
    pub pending: Vec<PendingLineIndexUpdate>,
    pub deleted: Vec<String>,
    pub skips: Vec<GraphFirstSkip>,
    pub anchors: PathMap<Position>,
}

impl View for GraphBuilder {
    type V = BuildView;

    open spec fn view(&self) -> BuildView {
        BuildView {
            contents: self.contents@,
            hunks: graph::op_views(self.hunks@),
            file_ops: file_op_views(self.file_ops@),
            next_file: self.next_file,
            next_branch: self.next_branch,
            deps: self.deps@.to_set(),
            pending: line_index::pending_views(self.pending@),
            deleted: text::texts(self.deleted@),
            skips: skip_views(self.skips@),
            anchors: self.anchors@,
        }
    }
}

/// A builder that starts with these directory anchors.
pub open spec fn build_start(anchors: Map<Seq<char>, Position>) -> BuildView {
    BuildView {
        contents: seq![],
        hunks: seq![],
        file_ops: seq![],
        next_file: 0,
        next_branch: 0,
        deps: Set::empty(),
        pending: seq![],
        deleted: seq![],
        skips: seq![],
        anchors,
    }
}

/// The builder after it depends on `p`.
pub open spec fn with_dep(s: BuildView, p: Position) -> BuildView {
    match graph::position_hash(p) {
        Some(h) => BuildView { deps: s.deps.insert(h), ..s },
        None => s,
    }
}

/// The builder after it depends on `p`, if there is one.
pub open spec fn with_opt_dep(s: BuildView, p: Option<Position>) -> BuildView {
    match p {
        Some(p) => with_dep(s, p),
        None => s,
    }
}

/// The dependencies on a list of lines: their changes and the changes that
/// introduced the edges to them.
pub open spec fn line_deps(deps: Set<ContentHash>, ls: Seq<line_index::ImportLineView>) -> Set<
    ContentHash,
>
    decreases ls.len(),
{
    if ls.len() == 0 {
        deps
    } else {
        line_deps(deps, ls.drop_last()).insert(ls.last().change).insert(ls.last().incoming_by)
    }
}

/// The ranges that lines take when they are appended behind `base` bytes.
pub open spec fn ranges_from(base: nat, ls: Seq<Seq<u8>>) -> Seq<(u64, u64)>
    decreases ls.len(),
{
    if ls.len() == 0 {
        seq![]
    } else {
        let start = base + line_units::all_bytes(ls.drop_last()).len();
        ranges_from(base, ls.drop_last()).push(
            (start as u64, (start + ls.last().len()) as u64),
        )
    }
}

/// An optional position as a list.
pub open spec fn opt_seq(p: Option<Position>) -> Seq<Position> {
    match p {
        Some(p) => seq![p],
        None => seq![],
    }
}

/// The insertion of a line behind `pred`.
pub open spec fn line_insertion(
    pred: Position,
    succ: Option<Position>,
    range: (u64, u64),
    inode: Position,
) -> graph::InsertionView {
    graph::InsertionView {
        predecessors: seq![pred],
        successors: opt_seq(succ),
        flag: graph::block_edge(),
        start: range.0,
        end: range.1,
        inode,
    }
}

/// The insertion of a name, or of the inode behind a name.
pub open spec fn name_insertion(
    pred: Position,
    succ: Option<Position>,
    start: u64,
    end: u64,
    inode: Position,
) -> graph::InsertionView {
    graph::InsertionView {
        predecessors: seq![pred],
        successors: opt_seq(succ),
        flag: graph::folder_edge(),
        start,
        end,
        inode,
    }
}

fn opt_vec(p: Option<Position>) -> (r: Vec<Position>)
    ensures
        r@ == opt_seq(p),
{
    let mut v: Vec<Position> = Vec::new();
    if let Some(p) = p {
        v.push(p);
    }
    assert(v@ =~= opt_seq(p));
    v
}

fn one_vec(p: Position) -> (r: Vec<Position>)
    ensures
        r@ == seq![p],
{
    let mut v: Vec<Position> = Vec::new();
    v.push(p);
    assert(v@ =~= seq![p]);
    v
}

fn new_line_insertion(
    pred: Position,
    succ: Option<Position>,
    range: (u64, u64),
    inode: Position,
) -> (r: Insertion)
    ensures
        r@ == line_insertion(pred, succ, range, inode),
{
    Insertion {
        predecessors: one_vec(pred),
        successors: opt_vec(succ),
        flag: EdgeFlags::block_only(),
        start: range.0,
        end: range.1,
        inode,
    }
}

fn new_name_insertion(
    pred: Position,
    succ: Option<Position>,
    start: u64,
    end: u64,
    inode: Position,
) -> (r: Insertion)
    ensures
        r@ == name_insertion(pred, succ, start, end, inode),
{
    Insertion {
        predecessors: one_vec(pred),
        successors: opt_vec(succ),
        flag: EdgeFlags::folder_block(),
        start,
        end,
        inode,
    }
}

/// A position in the change under construction.
pub open spec fn here(pos: u64) -> Position {
    Position { change: None, pos }
}

/// The operation that hangs the line `k` of a run on the line before it.
pub open spec fn chain_op(
    path: Seq<char>,
    ranges: Seq<(u64, u64)>,
    inode: Position,
    first_line: u64,
    succ: Option<Position>,
    encoding: Option<Encoding>,
    k: int,
) -> graph::GraphOpView {
    graph::GraphOpView::Edit {
        change: graph::AtomView::Insertion(
            line_insertion(
                here(ranges[k - 1].1),
                if k + 1 == ranges.len() {
                    succ
                } else {
                    None
                },
                ranges[k],
                inode,
            ),
        ),
        path,
        line: (first_line + k) as u64,
        encoding,
    }
}

/// The operations that hang the lines of a run behind its first on each
/// other.
pub open spec fn chain_ops(
    path: Seq<char>,
    ranges: Seq<(u64, u64)>,
    inode: Position,
    first_line: u64,
    succ: Option<Position>,
    encoding: Option<Encoding>,
) -> Seq<graph::GraphOpView> {
    Seq::new(
        (if ranges.len() == 0 {
            0
        } else {
            ranges.len() - 1
        }) as nat,
        |j: int| chain_op(path, ranges, inode, first_line, succ, encoding, j + 1),
    )
}

/// The deletion of the edge that leads to the line `k` of a file.
pub open spec fn deletion_edge(f: line_index::IndexedFileView, k: int) -> NewEdge {
    NewEdge {
        previous: graph::block_edge(),
        flag: graph::deleted_edge(graph::block_edge()),
        from: if k == 0 {
            f.inode_pos
        } else {
            f.lines[k - 1].end_pos()
        },
        to: f.lines[k].node(),
        introduced_by: Some(f.lines[k].incoming_by),
    }
}

/// The deletion of the edges that lead to the lines `a` up to `b`.
pub open spec fn deletion_edges(f: line_index::IndexedFileView, a: int, b: int) -> Seq<NewEdge> {
    Seq::new((b - a) as nat, |k: int| deletion_edge(f, a + k))
}

fn delete_edges(f: &ImportIndexedFile, a: usize, b: usize) -> (r: Vec<NewEdge>)
    requires
        a <= b <= f.lines@.len(),
    ensures
        r@ == deletion_edges(f@, a as int, b as int),
{
    let mut out: Vec<NewEdge> = Vec::new();
    let ghost want = deletion_edges(f@, a as int, b as int);
    let mut k: usize = a;
    assert(out@ =~= want.take(0));
    while k < b
        invariant
            a <= k <= b <= f.lines@.len(),
            want == deletion_edges(f@, a as int, b as int),
            out@ == want.take(k - a),
        decreases b - k,
    {
        let line: &ImportLine = &f.lines[k];
        assert(f@.lines[k as int] == line@);
        let from: Position = if k == 0 {
            f.inode_pos
        } else {
            assert(f@.lines[k - 1] == f.lines@[k - 1]@);
            f.lines[k - 1].end_pos()
        };
        let edge = NewEdge {
            previous: EdgeFlags::block_only(),
            flag: EdgeFlags::block_only().into_deleted(),
            from,
            to: line.node(),
            introduced_by: Some(line.incoming_by),
        };
        assert(edge == want[k - a]);
        out.push(edge);
        assert(out@ =~= want.take(k - a + 1));
        k += 1;
    }
    assert(want.take(b - a) =~= want);
    out
}

/// Which kind of file operation a replacement belongs to.
#[derive(Clone, Copy, Debug, PartialEq, Eq, Structural)]
pub enum ReplacementKind {
    Rename,
    Modify,
}

/// Where a block lies among `n` lines, or why it cannot.
pub open spec fn placed(b: line_units::BlockView, n: nat, kind: ReplacementKind) -> Result<
    (int, int),
    SkipReason,
> {
    let rename = kind == ReplacementKind::Rename;
    if b.old_len > 0 && b.old_start == 0 {
        Err(
            if rename {
                SkipReason::RenameReplacementUnderflow
            } else {
                SkipReason::ModifiedReplacementUnderflow
            },
        )
    } else {
        let start = if b.old_len == 0 {
            b.old_start as int
        } else {
            b.old_start - 1
        };
        if start + b.old_len > u64::MAX {
            Err(
                if rename {
                    SkipReason::RenameReplacementOverflow
                } else {
                    SkipReason::ModifiedReplacementOverflow
                },
            )
        } else if start + b.old_len > n {
            Err(
                if rename {
                    SkipReason::RenameReplacementOutOfBounds
                } else {
                    SkipReason::ModifiedReplacementOutOfBounds
                },
            )
        } else {
            Ok((start, start + b.old_len))
        }
    }
}

fn place_block(b: &GitReplacementBlock, n: usize, kind: ReplacementKind) -> (r: Result<
    (usize, usize),
    SkipReason,
>)
    ensures
        match placed(b@, n as nat, kind) {
            Ok((x, y)) => r matches Ok((u, v)) && u == x && v == y && u <= v <= n,
            Err(e) => r matches Err(d) && d == e,
        },
{
    let rename: bool = kind == ReplacementKind::Rename;
    let start: u64 = if b.old_len == 0 {
        b.old_start
    } else {
        if b.old_start == 0 {
            return Err(
                if rename {
                    SkipReason::RenameReplacementUnderflow
                } else {
                    SkipReason::ModifiedReplacementUnderflow
                },
            );
        }
        b.old_start - 1
    };
    match start.checked_add(b.old_len) {
        None => Err(
            if rename {
                SkipReason::RenameReplacementOverflow
            } else {
                SkipReason::ModifiedReplacementOverflow
            },
        ),
        Some(end) => {
            if end > n as u64 {
                return Err(
                    if rename {
                        SkipReason::RenameReplacementOutOfBounds
                    } else {
                        SkipReason::ModifiedReplacementOutOfBounds
                    },
                );
            }
            Ok((start as usize, end as usize))
        },
    }
}

/// The position before the line `a` of a file.
pub open spec fn position_before(f: line_index::IndexedFileView, a: int) -> Position {
    if a == 0 {
        f.inode_pos
    } else {
        f.lines[a - 1].end_pos()
    }
}

/// The position of the line `b` of a file, if it has one.
pub open spec fn position_at(f: line_index::IndexedFileView, b: int) -> Option<Position> {
    if b < f.lines.len() {
        Some(f.lines[b].start_pos())
    } else {
        None
    }
}

/// The first operation of a placed block.
pub open spec fn first_op(
    path: Seq<char>,
    f: line_index::IndexedFileView,
    b: line_units::BlockView,
    a: int,
    e: int,
    ranges: Seq<(u64, u64)>,
    encoding: Option<Encoding>,
) -> graph::GraphOpView {
    let update = graph::EdgeUpdateView { edges: deletion_edges(f, a, e), inode: f.inode_pos };
    let succ = if ranges.len() == 1 {
        position_at(f, e)
    } else {
        None
    };
    if ranges.len() == 0 {
        graph::GraphOpView::Edit {
            change: graph::AtomView::EdgeUpdate(update),
            path,
            line: b.new_start,
            encoding,
        }
    } else if b.old_len == 0 {
        graph::GraphOpView::Edit {
            change: graph::AtomView::Insertion(
                line_insertion(position_before(f, a), succ, ranges[0], f.inode_pos),
            ),
            path,
            line: b.new_start,
            encoding,
        }
    } else {
        graph::GraphOpView::Replacement {
            change: update,
            replacement: line_insertion(position_before(f, a), succ, ranges[0], f.inode_pos),
            path,
            line: b.new_start,
            encoding,
        }
    }
}

/// The builder after a placed block.
pub open spec fn block_applied(
    s: BuildView,
    path: Seq<char>,
    f: line_index::IndexedFileView,
    b: line_units::BlockView,
    a: int,
    e: int,
    encoding: Option<Encoding>,
) -> BuildView {
    let s1 = with_opt_dep(with_dep(s, position_before(f, a)), position_at(f, e));
    let ranges = ranges_from(s.contents.len(), b.new_lines);
    BuildView {
        contents: s.contents + line_units::all_bytes(b.new_lines),
        hunks: s.hunks.push(first_op(path, f, b, a, e, ranges, encoding)) + chain_ops(
            path,
            ranges,
            f.inode_pos,
            b.new_start,
            position_at(f, e),
            encoding,
        ),
        deps: line_deps(s1.deps, f.lines.subrange(a, e)),
        ..s
    }
}

/// The pending replacement of a placed block.
pub open spec fn block_pending(
    s: BuildView,
    f: line_index::IndexedFileView,
    b: line_units::BlockView,
    a: int,
    e: int,
) -> line_index::PendingReplacementView {
    line_index::PendingReplacementView {
        start_idx: a as u64,
        old_len: b.old_len,
        new_ranges: ranges_from(s.contents.len(), b.new_lines),
        new_lines: b.new_lines,
        successor_incoming_by_current: position_at(f, e) is Some,
    }
}

/// Builder and pending replacements after a list of blocks; a block that
/// cannot be placed is skipped.
pub open spec fn blocks_applied(
    s: BuildView,
    file: commit::ParsedFileView,
    f: line_index::IndexedFileView,
    bs: Seq<line_units::BlockView>,
    encoding: Option<Encoding>,
    kind: ReplacementKind,
) -> (BuildView, Seq<line_index::PendingReplacementView>)
    decreases bs.len(),
{
    if bs.len() == 0 {
        (s, seq![])
    } else {
        let (s1, p1) = blocks_applied(s, file, f, bs.drop_last(), encoding, kind);
        let b = bs.last();
        match placed(b, f.lines.len(), kind) {
            Ok((a, e)) => (
                block_applied(s1, file.path, f, b, a, e, encoding),
                p1.push(block_pending(s1, f, b, a, e)),
            ),
            Err(reason) => (
                BuildView { skips: s1.skips.push(file_skip(file, reason)), ..s1 },
                p1,
            ),
        }
    }
}

impl GraphBuilder {
    /// Anchors and dependencies hold nothing twice, and the counters stay
    /// below what was written.
    pub open spec fn wf(&self) -> bool {
        &&& self.anchors.wf()
        &&& graph::hashes_rising(self.deps@)
        &&& self.next_branch <= self.contents@.len()
        &&& self.next_file <= self.file_ops@.len()
    }

    /// Depend on the change of a position.
    fn depend(&mut self, p: &Position)
        requires
            old(self).wf(),
        ensures
            final(self).wf(),
            final(self)@ == with_dep(old(self)@, *p),
    {
        if let Some(h) = position_hashes(p) {
            insert_hash(&mut self.deps, h);
        }
        assert(self@ =~= with_dep(old(self)@, *p));
    }

    /// Depend on the lines `a` up to `b` of a file.
    fn depend_on_lines(&mut self, f: &ImportIndexedFile, a: usize, b: usize)
        requires
            old(self).wf(),
            a <= b <= f.lines@.len(),
        ensures
            final(self).wf(),
            final(self)@ == (BuildView {
                deps: line_deps(old(self)@.deps, f@.lines.subrange(a as int, b as int)),
                ..old(self)@
            }),
    {
        let ghost ls = f@.lines.subrange(a as int, b as int);
        let mut k: usize = a;
        assert(ls.take(0) =~= Seq::<line_index::ImportLineView>::empty());
        while k < b
            invariant
                a <= k <= b <= f.lines@.len(),
                ls == f@.lines.subrange(a as int, b as int),
                self.wf(),
                self@ == (BuildView {
                    deps: line_deps(old(self)@.deps, ls.take(k - a)),
                    ..old(self)@
                }),
            decreases b - k,
        {
            assert(ls.take(k - a + 1).drop_last() =~= ls.take(k - a));
            assert(ls.take(k - a + 1).last() == f.lines@[k as int]@);
            insert_hash(&mut self.deps, f.lines[k].change);
            insert_hash(&mut self.deps, f.lines[k].incoming_by);
            assert(self@ =~= (BuildView {
                deps: line_deps(old(self)@.deps, ls.take(k - a + 1)),
                ..old(self)@
            }));
            k += 1;
        }
        assert(ls.take(b - a) =~= ls);
    }

    /// Append bytes to the content of the change.
    fn append_bytes(&mut self, bytes: &[u8]) -> (r: (u64, u64))
        requires
            old(self).wf(),
        ensures
            final(self).wf(),
            final(self)@ == (BuildView { contents: old(self)@.contents + bytes@, ..old(self)@ }),
            r.0 == old(self)@.contents.len() as u64,
            r.1 == (old(self)@.contents.len() + bytes@.len()) as u64,
            old(self)@.contents.len() + bytes@.len() <= u64::MAX,
    {
        let start: u64 = self.contents.len() as u64;
        let mut i: usize = 0;
        while i < bytes.len()
            invariant
                i <= bytes@.len(),
                self.wf(),
                self@ == (BuildView {
                    contents: old(self)@.contents + bytes@.take(i as int),
                    ..old(self)@
                }),
            decreases bytes@.len() - i,
        {
            self.contents.push(bytes[i]);
            assert(old(self)@.contents + bytes@.take(i as int + 1) =~= (old(self)@.contents
                + bytes@.take(i as int)).push(bytes@[i as int]));
            i += 1;
        }
        assert(bytes@.take(i as int) =~= bytes@);
        let end: u64 = self.contents.len() as u64;
        (start, end)
    }

    /// Append lines to the content of the change.
    fn append_lines(&mut self, ls: &Vec<Vec<u8>>) -> (r: Vec<(u64, u64)>)
        requires
            old(self).wf(),
        ensures
            final(self).wf(),
            final(self)@ == (BuildView {
                contents: old(self)@.contents + line_units::all_bytes(graph::byte_views(ls@)),
                ..old(self)@
            }),
            r@ == ranges_from(old(self)@.contents.len(), graph::byte_views(ls@)),
            r@.len() == ls@.len(),
            final(self)@.contents.len() <= u64::MAX,
    {
        let mut out: Vec<(u64, u64)> = Vec::new();
        let ghost all = graph::byte_views(ls@);
        let ghost base = self@.contents;
        let mut i: usize = 0;
        assert(all.take(0) =~= Seq::<Seq<u8>>::empty());
        assert(base + line_units::all_bytes(all.take(0)) =~= base);
        assert(out@ =~= ranges_from(base.len(), all.take(0)));
        while i < ls.len()
            invariant
                i <= ls@.len(),
                all == graph::byte_views(ls@),
                base == old(self)@.contents,
                self.wf(),
                self@ == (BuildView {
                    contents: base + line_units::all_bytes(all.take(i as int)),
                    ..old(self)@
                }),
                out@ == ranges_from(base.len(), all.take(i as int)),
                out@.len() == i,
            decreases ls@.len() - i,
        {
            let ghost before = self@;
            assert(all.take(i as int + 1).drop_last() =~= all.take(i as int));
            assert(all.take(i as int + 1).last() == ls@[i as int]@);
            let range = self.append_bytes(&ls[i]);
            out.push(range);
            assert(self@.contents =~= base + line_units::all_bytes(all.take(i as int + 1)));
            i += 1;
        }
        assert(all.take(ls@.len() as int) =~= all);
        let n: usize = self.contents.len();
        out
    }

    /// Push one operation.
    fn push_op(&mut self, op: GraphOp)
        requires
            old(self).wf(),
        ensures
            final(self).wf(),
            final(self)@ == (BuildView { hunks: old(self)@.hunks.push(op@), ..old(self)@ }),
    {
        let ghost before = self@.hunks;
        let ghost ov = op@;
        self.hunks.push(op);
        assert(graph::op_views(self.hunks@) =~= before.push(ov));
    }

    /// Push one pending update.
    fn push_pending(&mut self, u: PendingLineIndexUpdate)
        requires
            old(self).wf(),
        ensures
            final(self).wf(),
            final(self)@ == (BuildView { pending: old(self)@.pending.push(u@), ..old(self)@ }),
    {
        let ghost before = self@.pending;
        let ghost uv = u@;
        self.pending.push(u);
        assert(line_index::pending_views(self.pending@) =~= before.push(uv));
    }

    /// Push one skip.
    fn push_skip(&mut self, skip: GraphFirstSkip)
        requires
            old(self).wf(),
        ensures
            final(self).wf(),
            final(self)@ == (BuildView { skips: old(self)@.skips.push(skip@), ..old(self)@ }),
    {
        let ghost before = self@.skips;
        let ghost sv = skip@;
        self.skips.push(skip);
        assert(skip_views(self.skips@) =~= before.push(sv));
    }

    /// Push the operations of one file's semantic layer.
    fn push_file_ops(&mut self, ops: FileOps)
        requires
            old(self).wf(),
        ensures
            final(self).wf(),
            final(self)@ == (BuildView { file_ops: old(self)@.file_ops.push(ops@), ..old(self)@ }),
            final(self).file_ops@.len() == old(self).file_ops@.len() + 1,
            final(self).file_ops@.len() <= u64::MAX,
    {
        let ghost before = self@.file_ops;
        let ghost ov = ops@;
        self.file_ops.push(ops);
        assert(file_op_views(self.file_ops@) =~= before.push(ov));
        let n: usize = self.file_ops.len();
    }

    /// Push the operations that hang the lines of a run on each other.
    fn push_chain(
        &mut self,
        path: &str,
        ranges: &Vec<(u64, u64)>,
        inode: Position,
        first_line: u64,
        succ: Option<Position>,
        encoding: Option<Encoding>,
    )
        requires
            old(self).wf(),
            first_line + ranges@.len() <= u64::MAX,
        ensures
            final(self).wf(),
            final(self)@ == (BuildView {
                hunks: old(self)@.hunks + chain_ops(
                    path@,
                    ranges@,
                    inode,
                    first_line,
                    succ,
                    encoding,
                ),
                ..old(self)@
            }),
    {
        let ghost want = chain_ops(path@, ranges@, inode, first_line, succ, encoding);
        let ghost before = self@.hunks;
        let mut k: usize = 1;
        assert(before + want.take(0) =~= before);
        while k < ranges.len()
            invariant
                1 <= k,
                k <= ranges@.len() || ranges@.len() == 0,
                ranges@.len() == 0 ==> k == 1,
                first_line + ranges@.len() <= u64::MAX,
                want == chain_ops(path@, ranges@, inode, first_line, succ, encoding),
                before == old(self)@.hunks,
                self.wf(),
                self@ == (BuildView { hunks: before + want.take(k - 1), ..old(self)@ }),
            decreases ranges@.len() - k,
        {
            let op = GraphOp::Edit {
                change: Atom::Insertion(
                    new_line_insertion(
                        Position { change: None, pos: ranges[k - 1].1 },
                        if k + 1 == ranges.len() {
                            succ
                        } else {
                            None
                        },
                        ranges[k],
                        inode,
                    ),
                ),
                path: path.to_owned(),
                line: first_line + k as u64,
                encoding,
            };
            assert(op@ == want[k - 1]);
            self.push_op(op);
            assert(before + want.take(k as int) =~= (before + want.take(k - 1)).push(want[k - 1]));
            k += 1;
        }
        assert(want.take(k - 1) =~= want);
    }

    /// Apply one placed block.
    fn apply_block(
        &mut self,
        path: &str,
        f: &ImportIndexedFile,
        b: &GitReplacementBlock,
        a: usize,
        e: usize,
        encoding: Option<Encoding>,
    ) -> (r: PendingLineReplacement)
        requires
            old(self).wf(),
            a <= e <= f.lines@.len(),
            e - a == b.old_len,
            line_units::numbered(b@),
        ensures
            final(self).wf(),
            final(self)@ == block_applied(
                old(self)@,
                path@,
                f@,
                b@,
                a as int,
                e as int,
                encoding,
            ),
            r@ == block_pending(old(self)@, f@, b@, a as int, e as int),
    {
        let ghost s0 = self@;
        let ghost fv = f@;
        let pred: Position = if a == 0 {
            f.inode_pos
        } else {
            assert(fv.lines[a - 1] == f.lines@[a - 1]@);
            f.lines[a - 1].end_pos()
        };
        let succ: Option<Position> = if e < f.lines.len() {
            assert(fv.lines[e as int] == f.lines@[e as int]@);
            Some(f.lines[e].start_pos())
        } else {
            None
        };
        assert(pred == position_before(fv, a as int));
        assert(succ == position_at(fv, e as int));
        self.depend(&pred);
        if let Some(p) = &succ {
            self.depend(p);
        }
        let ghost s1 = self@;
        assert(s1 == with_opt_dep(with_dep(s0, pred), succ));
        let edges = delete_edges(f, a, e);
        self.depend_on_lines(f, a, e);
        let ranges = self.append_lines(&b.new_lines);
        let ghost s2 = self@;
        assert(s1.contents == s0.contents);
        let first_succ: Option<Position> = if ranges.len() == 1 {
            succ
        } else {
            None
        };
        let update = EdgeUpdate { edges, inode: f.inode_pos };
        let op = if ranges.len() == 0 {
            GraphOp::Edit {
                change: Atom::EdgeUpdate(update),
                path: path.to_owned(),
                line: b.new_start,
                encoding,
            }
        } else if b.old_len == 0 {
            GraphOp::Edit {
                change: Atom::Insertion(
                    new_line_insertion(pred, first_succ, ranges[0], f.inode_pos),
                ),
                path: path.to_owned(),
                line: b.new_start,
                encoding,
            }
        } else {
            GraphOp::Replacement {
                change: update,
                replacement: new_line_insertion(pred, first_succ, ranges[0], f.inode_pos),
                path: path.to_owned(),
                line: b.new_start,
                encoding,
            }
        };
        assert(op@ == first_op(path@, fv, b@, a as int, e as int, ranges@, encoding));
        self.push_op(op);
        assert(b@.new_lines.len() == b.new_lines@.len());
        self.push_chain(path, &ranges, f.inode_pos, b.new_start, succ, encoding);
        assert(self@ =~= block_applied(s0, path@, fv, b@, a as int, e as int, encoding));
        let new_lines = clone_byte_lines(&b.new_lines, 0, b.new_lines.len());
        assert(graph::byte_views(new_lines@) =~= b@.new_lines);
        PendingLineReplacement {
            start_idx: a as u64,
            old_len: b.old_len,
            new_ranges: ranges,
            new_lines,
            successor_incoming_by_current: succ.is_some(),
        }
    }

    /// Apply a list of blocks; a block that cannot be placed is skipped.
    fn apply_blocks(
        &mut self,
        file: &ParsedFile,
        f: &ImportIndexedFile,
        bs: &Vec<GitReplacementBlock>,
        encoding: Option<Encoding>,
        kind: ReplacementKind,
    ) -> (r: Vec<PendingLineReplacement>)
        requires
            old(self).wf(),
            forall|k: int| 0 <= k < bs@.len() ==> line_units::numbered(#[trigger] bs@[k]@),
        ensures
            final(self).wf(),
            (final(self)@, line_index::replacement_views(r@)) == blocks_applied(
                old(self)@,
                file@,
                f@,
                line_units::block_views(bs@),
                encoding,
                kind,
            ),
    {
        let mut out: Vec<PendingLineReplacement> = Vec::new();
        let ghost all = line_units::block_views(bs@);
        let mut i: usize = 0;
        assert(all.take(0) =~= Seq::<line_units::BlockView>::empty());
        assert(line_index::replacement_views(out@) =~= Seq::empty());
        while i < bs.len()
            invariant
                i <= bs@.len(),
                all == line_units::block_views(bs@),
                forall|k: int| 0 <= k < bs@.len() ==> line_units::numbered(#[trigger] bs@[k]@),
                self.wf(),
                (self@, line_index::replacement_views(out@)) == blocks_applied(
                    old(self)@,
                    file@,
                    f@,
                    all.take(i as int),
                    encoding,
                    kind,
                ),
            decreases bs@.len() - i,
        {
            assert(all.take(i as int + 1).drop_last() =~= all.take(i as int));
            assert(all.take(i as int + 1).last() == bs@[i as int]@);
            let b: &GitReplacementBlock = &bs[i];
            assert(line_units::numbered(bs@[i as int]@));
            assert(f@.lines.len() == f.lines@.len());
            match place_block(b, f.lines.len(), kind) {
                Ok((a, e)) => {
                    let ghost before = line_index::replacement_views(out@);
                    let p = self.apply_block(&file.path, f, b, a, e, encoding);
                    let ghost pv = p@;
                    out.push(p);
                    assert(line_index::replacement_views(out@) =~= before.push(pv));
                },
                Err(reason) => {
                    self.push_skip(GraphFirstSkip::new(file, reason));
                },
            }
            i += 1;
        }
        assert(all.take(bs@.len() as int) =~= all);
        out
    }
}

/// The parent of a path in the graph: the root, or the anchor of its
/// directory.
pub open spec fn anchored_parent(anchors: Map<Seq<char>, Position>, path: Seq<char>) -> Option<
    Position,
> {
    let parent = paths::parent_path(path);
    if parent.len() == 0 {
        Some(graph::root_position())
    } else if anchors.contains_key(parent) {
        Some(anchors[parent])
    } else {
        None
    }
}

/// The builder after it made sure of one directory.
pub open spec fn directory_step(s: BuildView, d: Seq<char>) -> Result<BuildView, SkipView> {
    let refused = |reason: SkipReason| SkipView {
        path: d,
        operation: FileOperation::Added,
        reason,
    };
    if s.anchors.contains_key(d) {
        Ok(with_dep(s, s.anchors[d]))
    } else {
        match anchored_parent(s.anchors, d) {
            None => Err(refused(SkipReason::MissingParentDirectoryAnchor)),
            Some(parent) => {
                let name = paths::file_name(d);
                if name.len() == 0 {
                    Err(refused(SkipReason::InvalidDirectoryPath))
                } else {
                    let start = s.contents.len() as u64;
                    let contents = s.contents + utf8::encode_utf8(name);
                    let end = contents.len() as u64;
                    Ok(
                        BuildView {
                            contents,
                            hunks: s.hunks.push(
                                graph::GraphOpView::DirAdd {
                                    add_name: name_insertion(parent, None, start, end, parent),
                                    add_inode: name_insertion(here(end), None, end, end, here(end)),
                                    path: d,
                                },
                            ),
                            pending: s.pending.push(
                                line_index::PendingView::DirectoryAdd {
                                    path: d,
                                    inode_pos: here(end),
                                },
                            ),
                            anchors: s.anchors.insert(d, here(end)),
                            ..with_dep(s, parent)
                        },
                    )
                }
            },
        }
    }
}

/// The builder after a list of directories, in turn.
pub open spec fn directories_built(s: BuildView, ds: Seq<Seq<char>>) -> Result<BuildView, SkipView>
    decreases ds.len(),
{
    if ds.len() == 0 {
        Ok(s)
    } else {
        match directories_built(s, ds.drop_last()) {
            Ok(s1) => directory_step(s1, ds.last()),
            Err(e) => Err(e),
        }
    }
}

/// Whether a file comes into being.
pub open spec fn creates(op: FileOperation) -> bool {
    op == FileOperation::Added || op == FileOperation::Copied
}

/// The directories that the new files of a commit need: outer ones first,
/// then by name, each once.
pub open spec fn required_directories(files: Seq<commit::ParsedFileView>) -> Seq<Seq<char>>
    decreases files.len(),
{
    if files.len() == 0 {
        seq![]
    } else if creates(files.last().operation) {
        paths::with_dirs(
            required_directories(files.drop_last()),
            paths::ancestors(files.last().path),
        )
    } else {
        required_directories(files.drop_last())
    }
}

/// The new content of a file, empty where it has none.
pub open spec fn content_or_empty(f: commit::ParsedFileView) -> Seq<u8> {
    match f.new_content {
        Some(c) => c,
        None => seq![],
    }
}

/// The builder with one more file in its semantic layer.
pub open spec fn with_file_ops(s: BuildView, ops: FileOpsView) -> BuildView {
    BuildView { file_ops: s.file_ops.push(ops), ..s }
}

/// The builder after a new file.
pub open spec fn added_step(
    s: BuildView,
    f: commit::ParsedFileView,
    graph_only: bool,
) -> BuildView {
    let start = s.contents.len() as u64;
    let named = s.contents + utf8::encode_utf8(paths::file_name(f.path));
    let end = named.len() as u64;
    let inode = here(end);
    match anchored_parent(s.anchors, f.path) {
        None => BuildView {
            contents: named,
            skips: s.skips.push(file_skip(f, SkipReason::MissingParentDirectoryAnchor)),
            ..s
        },
        Some(parent) => {
            let lines = commit::import_lines_of(f.path, content_or_empty(f), f.new_encoding);
            let ranges = ranges_from(named.len(), lines);
            BuildView {
                contents: named + line_units::all_bytes(lines),
                hunks: s.hunks.push(
                    graph::GraphOpView::FileAdd {
                        add_name: name_insertion(parent, None, start, end, parent),
                        add_inode: name_insertion(inode, None, end, end, inode),
                        contents: if ranges.len() > 0 {
                            Some(line_insertion(inode, None, ranges[0], inode))
                        } else {
                            None
                        },
                        path: f.path,
                        encoding: Some(f.new_encoding),
                    },
                ) + chain_ops(f.path, ranges, inode, 1, None, Some(f.new_encoding)),
                file_ops: if graph_only {
                    s.file_ops
                } else {
                    s.file_ops.push(
                        added_file_ops(
                            f.path,
                            lines,
                            ranges,
                            f.new_encoding,
                            s.next_file,
                            s.next_branch,
                        ),
                    )
                },
                next_file: if graph_only {
                    s.next_file
                } else {
                    (s.next_file + 1) as u64
                },
                next_branch: if graph_only {
                    s.next_branch
                } else {
                    branches_after(lines.len(), f.new_encoding, s.next_branch)
                },
                pending: s.pending.push(
                    line_index::PendingView::Add {
                        path: f.path,
                        inode_pos: inode,
                        new_ranges: ranges,
                        new_lines: lines,
                    },
                ),
                ..with_dep(s, parent)
            }
        },
    }
}

/// The block that replaces a whole file of `n` lines by its content, taken
/// as one line.
pub open spec fn whole_block(n: nat, content: Seq<u8>) -> line_units::BlockView {
    line_units::BlockView {
        old_start: if n == 0 {
            0
        } else {
            1
        },
        old_len: n as u64,
        new_start: 1,
        new_lines: if content.len() == 0 {
            seq![]
        } else {
            seq![content]
        },
    }
}

/// Whether a file is imported as one line.
pub open spec fn in_one_piece(f: commit::ParsedFileView) -> bool {
    f.new_encoding == Encoding::Binary || line_units::generated_path(f.path)
}

/// The builder after a list of blocks and the index update for them.
pub open spec fn blocks_step(
    s: BuildView,
    f: commit::ParsedFileView,
    indexed: line_index::IndexedFileView,
    bs: Seq<line_units::BlockView>,
    encoding: Option<Encoding>,
    kind: ReplacementKind,
) -> BuildView {
    if bs.len() == 0 {
        s
    } else {
        let (s1, replacements) = blocks_applied(s, f, indexed, bs, encoding, kind);
        BuildView {
            pending: s1.pending.push(
                line_index::PendingView::Modify { path: f.path, replacements },
            ),
            ..s1
        }
    }
}

/// The deletion of the name that a renamed file had.
pub open spec fn name_deletion(indexed: line_index::IndexedFileView, old_path: Seq<char>) -> NewEdge {
    let end = indexed.inode_pos.pos;
    let n = utf8::encode_utf8(paths::file_name(old_path)).len();
    NewEdge {
        previous: graph::folder_edge(),
        flag: graph::deleted_edge(graph::folder_edge()),
        from: graph::root_position(),
        to: GraphNode {
            change: indexed.inode_pos.change,
            start: (if n <= end {
                end - n
            } else {
                0
            }) as u64,
            end,
        },
        introduced_by: indexed.inode_pos.change,
    }
}

/// The builder after the name of an indexed file changed.
pub open spec fn moved_step(
    s: BuildView,
    f: commit::ParsedFileView,
    old_path: Seq<char>,
    indexed: line_index::IndexedFileView,
) -> BuildView {
    let start = s.contents.len() as u64;
    let named = s.contents + utf8::encode_utf8(paths::file_name(f.path));
    let end = named.len() as u64;
    BuildView {
        contents: named,
        hunks: s.hunks.push(
            graph::GraphOpView::FileMove {
                del: graph::EdgeUpdateView {
                    edges: seq![name_deletion(indexed, old_path)],
                    inode: indexed.inode_pos,
                },
                add: name_insertion(
                    graph::root_position(),
                    Some(indexed.inode_pos),
                    start,
                    end,
                    indexed.inode_pos,
                ),
                path: f.path,
            },
        ),
        pending: s.pending.push(
            line_index::PendingView::Rename { old_path, new_path: f.path },
        ),
        ..with_dep(s, indexed.inode_pos)
    }
}

/// The builder after a renamed file, the `i`th of its commit.
pub open spec fn renamed_step(
    s: BuildView,
    f: commit::ParsedFileView,
    i: usize,
    idx: line_index::LineIndexView,
    graph_only: bool,
) -> BuildView {
    match f.old_path {
        None => BuildView {
            skips: s.skips.push(file_skip(f, SkipReason::RenameMissingOldPath)),
            ..s
        },
        Some(old_path) => if !idx.files.contains_key(old_path) {
            BuildView {
                skips: s.skips.push(file_skip(f, SkipReason::RenameMissingLineIndex)),
                ..s
            }
        } else {
            let indexed = idx.files[old_path];
            let moved = moved_step(s, f, old_path, indexed);
            let described = if !graph_only && !in_one_piece(f) && f.diff_lines is Some {
                with_file_ops(moved, FileOpsView::FromDiff { path: f.path, file: i })
            } else {
                moved
            };
            let content = content_or_empty(f);
            let blocks = if in_one_piece(f) {
                seq![whole_block(indexed.lines.len(), content)]
            } else {
                line_units::state_blocks(
                    line_index::line_contents(indexed.lines),
                    line_units::line_units(content),
                )
            };
            blocks_step(
                described,
                f,
                indexed,
                blocks,
                Some(f.new_encoding),
                ReplacementKind::Rename,
            )
        },
    }
}

/// A text encoding, or UTF-8 where there is none.
pub open spec fn text_encoding(e: Option<Encoding>) -> Option<Encoding> {
    match e {
        Some(e) => if e == Encoding::Binary {
            Some(Encoding::Utf8)
        } else {
            Some(e)
        },
        None => Some(Encoding::Utf8),
    }
}

/// The builder after a deleted file, the `i`th of its commit.
pub open spec fn deleted_step(
    s: BuildView,
    f: commit::ParsedFileView,
    i: usize,
    idx: line_index::LineIndexView,
    graph_only: bool,
) -> BuildView {
    let s1 = BuildView {
        pending: s.pending.push(line_index::PendingView::Delete { path: f.path }),
        deleted: s.deleted.push(f.path),
        ..s
    };
    if !idx.files.contains_key(f.path) {
        BuildView {
            skips: s.skips.push(file_skip(f, SkipReason::DeleteMissingLineIndex)),
            ..s1
        }
    } else {
        let indexed = idx.files[f.path];
        let n = indexed.lines.len() as int;
        let s2 = BuildView {
            deps: line_deps(s.deps, indexed.lines),
            hunks: s.hunks.push(
                graph::GraphOpView::Edit {
                    change: graph::AtomView::EdgeUpdate(
                        graph::EdgeUpdateView {
                            edges: deletion_edges(indexed, 0, n),
                            inode: indexed.inode_pos,
                        },
                    ),
                    path: f.path,
                    line: 1,
                    encoding: text_encoding(f.old_encoding),
                },
            ),
            ..s1
        };
        if !graph_only && f.diff_lines is Some {
            with_file_ops(s2, FileOpsView::FromDiff { path: f.path, file: i })
        } else {
            s2
        }
    }
}

/// Why a modified file cannot be imported graph-first.
pub open spec fn modified_refusal(
    f: commit::ParsedFileView,
    idx: line_index::LineIndexView,
    is_merge: bool,
) -> Option<SkipReason> {
    if !idx.files.contains_key(f.path) {
        Some(SkipReason::ModifiedMissingLineIndex)
    } else if f.new_content is None {
        Some(SkipReason::ModifiedMissingNewContent)
    } else if !in_one_piece(f) && !is_merge && f.diff_lines is None {
        Some(SkipReason::ModifiedMissingDiffLines)
    } else {
        None
    }
}

/// The builder after a modified file, the `i`th of its commit.
pub open spec fn modified_step(
    s: BuildView,
    f: commit::ParsedFileView,
    i: usize,
    idx: line_index::LineIndexView,
    is_merge: bool,
    graph_only: bool,
) -> BuildView {
    match modified_refusal(f, idx, is_merge) {
        Some(reason) => BuildView { skips: s.skips.push(file_skip(f, reason)), ..s },
        None => {
            let indexed = idx.files[f.path];
            let content = content_or_empty(f);
            let by_diff = !in_one_piece(f) && !is_merge;
            let described = if by_diff && !graph_only {
                with_file_ops(s, FileOpsView::FromDiff { path: f.path, file: i })
            } else {
                s
            };
            let blocks = if in_one_piece(f) {
                seq![whole_block(indexed.lines.len(), content)]
            } else if is_merge {
                line_units::state_blocks(
                    line_index::line_contents(indexed.lines),
                    line_units::line_units(content),
                )
            } else {
                line_units::diff_blocks(f.diff_lines->0)
            };
            blocks_step(
                described,
                f,
                indexed,
                blocks,
                text_encoding(Some(f.new_encoding)),
                ReplacementKind::Modify,
            )
        },
    }
}

/// The builder after one file, the `i`th of its commit.
pub open spec fn file_step(
    s: BuildView,
    f: commit::ParsedFileView,
    i: usize,
    idx: line_index::LineIndexView,
    is_merge: bool,
    graph_only: bool,
) -> BuildView {
    match f.operation {
        FileOperation::Added | FileOperation::Copied => added_step(s, f, graph_only),
        FileOperation::Renamed => renamed_step(s, f, i, idx, graph_only),
        FileOperation::Deleted => deleted_step(s, f, i, idx, graph_only),
        FileOperation::Modified => modified_step(s, f, i, idx, is_merge, graph_only),
    }
}

/// The builder after a list of files, in turn.
pub open spec fn files_built(
    s: BuildView,
    files: Seq<commit::ParsedFileView>,
    idx: line_index::LineIndexView,
    is_merge: bool,
    graph_only: bool,
) -> BuildView
    decreases files.len(),
{
    if files.len() == 0 {
        s
    } else {
        let s1 = files_built(s, files.drop_last(), idx, is_merge, graph_only);
        file_step(s1, files.last(), (files.len() - 1) as usize, idx, is_merge, graph_only)
    }
}

/// The skip of a whole commit.
pub open spec fn commit_skip(reason: SkipReason) -> SkipView {
    SkipView { path: seq![], operation: FileOperation::Modified, reason }
}

/// The change that a commit becomes, or every reason why it cannot be
/// imported graph-first.
pub open spec fn graph_first(
    files: Seq<commit::ParsedFileView>,
    is_merge: bool,
    idx: line_index::LineIndexView,
    graph_only: bool,
) -> Result<BuildView, Seq<SkipView>> {
    if files.len() == 0 {
        Err(seq![commit_skip(SkipReason::EmptyCommit)])
    } else {
        match directories_built(build_start(idx.directories), required_directories(files)) {
            Err(skip) => Err(seq![skip]),
            Ok(s) => {
                let built = files_built(s, files, idx, is_merge, graph_only);
                if built.skips.len() > 0 {
                    Err(built.skips)
                } else if built.hunks.len() == 0 {
                    Err(seq![commit_skip(SkipReason::NoGraphHunks)])
                } else {
                    Ok(built)
                }
            },
        }
    }
}

/// The parent of a path in the graph.
fn parent_anchor(anchors: &PathMap<Position>, path: &str) -> (r: Option<Position>)
    requires
        anchors.wf(),
    ensures
        r == anchored_parent(anchors@, path@),
{
    let parent = extract_parent(path);
    if parent.as_str().is_empty() {
        return Some(Position::root());
    }
    match anchors.get(&parent) {
        Some(p) => Some(*p),
        None => None,
    }
}

/// The contents of the lines of a file.
fn bytes_of_lines(f: &ImportIndexedFile) -> (r: Vec<Vec<u8>>)
    ensures
        graph::byte_views(r@) == line_index::line_contents(f@.lines),
        r@.len() == f.lines@.len(),
{
    let mut out: Vec<Vec<u8>> = Vec::new();
    let ghost want = line_index::line_contents(f@.lines);
    let mut i: usize = 0;
    assert(graph::byte_views(out@) =~= want.take(0));
    while i < f.lines.len()
        invariant
            i <= f.lines@.len(),
            out@.len() == i,
            want == line_index::line_contents(f@.lines),
            graph::byte_views(out@) == want.take(i as int),
        decreases f.lines@.len() - i,
    {
        let ghost before = graph::byte_views(out@);
        let b = clone_bytes(&f.lines[i].content);
        let ghost bv = b@;
        assert(bv == want[i as int]);
        out.push(b);
        assert(graph::byte_views(out@) =~= before.push(bv));
        assert(graph::byte_views(out@) =~= want.take(i as int + 1));
        i += 1;
    }
    assert(want.take(i as int) =~= want);
    out
}

/// Whether a file is imported as one line.
fn taken_in_one_piece(file: &ParsedFile) -> (r: bool)
    ensures
        r == in_one_piece(file@),
{
    file.new_encoding == Encoding::Binary || is_generated_diff_skip_path(&file.path)
}

/// The block that replaces a whole file by its content.
fn replace_whole(f: &ImportIndexedFile, content: &[u8]) -> (r: Vec<GitReplacementBlock>)
    ensures
        line_units::block_views(r@) == seq![whole_block(f@.lines.len(), content@)],
        forall|k: int| 0 <= k < r@.len() ==> line_units::numbered(#[trigger] r@[k]@),
{
    let mut new_lines: Vec<Vec<u8>> = Vec::new();
    if content.len() > 0 {
        new_lines.push(clone_bytes(content));
        assert(graph::byte_views(new_lines@) =~= seq![content@]);
    } else {
        assert(graph::byte_views(new_lines@) =~= Seq::<Seq<u8>>::empty());
    }
    let block = GitReplacementBlock {
        old_start: if f.lines.len() == 0 {
            0
        } else {
            1
        },
        old_len: f.lines.len() as u64,
        new_start: 1,
        new_lines,
    };
    let ghost bv = block@;
    let mut out: Vec<GitReplacementBlock> = Vec::new();
    out.push(block);
    assert(bv == whole_block(f@.lines.len(), content@));
    assert(line_units::block_views(out@) =~= seq![bv]);
    out
}

/// A text encoding, or UTF-8 where there is none.
fn as_text(e: Option<Encoding>) -> (r: Option<Encoding>)
    ensures
        r == text_encoding(e),
{
    match e {
        Some(e) => if e == Encoding::Binary {
            Some(Encoding::Utf8)
        } else {
            Some(e)
        },
        None => Some(Encoding::Utf8),
    }
}

/// What no list in memory exceeds.
pub open spec fn file_fits(f: commit::ParsedFileView) -> bool {
    &&& f.new_content is Some ==> f.new_content->0.len() < u64::MAX
    &&& f.diff_lines is Some ==> f.diff_lines->0.len() <= line_units::MAX_RECORDS
}

/// What no list in memory exceeds.
pub open spec fn index_fits(idx: line_index::LineIndexView) -> bool {
    forall|k: Seq<char>|
        #![trigger idx.files[k]]
        idx.files.contains_key(k) ==> idx.files[k].lines.len() < u64::MAX
}

proof fn lemma_import_line_count(path: Seq<char>, content: Seq<u8>, encoding: Encoding)
    ensures
        commit::import_lines_of(path, content, encoding).len() <= content.len(),
{
    line_units::lemma_line_count(content);
}

impl GraphBuilder {
    /// A builder that starts with these directory anchors.
    fn start(anchors: &PathMap<Position>) -> (r: GraphBuilder)
        requires
            anchors.wf(),
        ensures
            r.wf(),
            r@ == build_start(anchors@),
    {
        let r = GraphBuilder {
            contents: Vec::new(),
            hunks: Vec::new(),
            file_ops: Vec::new(),
            next_file: 0,
            next_branch: 0,
            deps: Vec::new(),
            pending: Vec::new(),
            deleted: Vec::new(),
            skips: Vec::new(),
            anchors: copy_anchors(anchors),
        };
        assert(r@ =~= build_start(anchors@));
        r
    }

    /// Make sure of one directory.
    fn add_directory(&mut self, d: &String) -> (r: Result<(), GraphFirstSkip>)
        requires
            old(self).wf(),
        ensures
            final(self).wf(),
            match directory_step(old(self)@, d@) {
                Ok(s) => r is Ok && final(self)@ == s,
                Err(e) => r matches Err(x) && x@ == e,
            },
    {
        let ghost s0 = self@;
        let anchor: Option<Position> = match self.anchors.get(d) {
            Some(p) => Some(*p),
            None => None,
        };
        if let Some(p) = anchor {
            self.depend(&p);
            return Ok(());
        }
        match parent_anchor(&self.anchors, d) {
            None => Err(
                GraphFirstSkip {
                    path: d.clone(),
                    operation: FileOperation::Added,
                    reason: SkipReason::MissingParentDirectoryAnchor,
                },
            ),
            Some(parent) => {
                self.depend(&parent);
                let name = extract_filename(d);
                if name.as_str().is_empty() {
                    return Err(
                        GraphFirstSkip {
                            path: d.clone(),
                            operation: FileOperation::Added,
                            reason: SkipReason::InvalidDirectoryPath,
                        },
                    );
                }
                let (start, end) = self.append_bytes(name.as_str().as_bytes());
                let inode_pos = Position { change: None, pos: end };
                self.push_op(
                    GraphOp::DirAdd {
                        add_name: new_name_insertion(parent, None, start, end, parent),
                        add_inode: new_name_insertion(inode_pos, None, end, end, inode_pos),
                        path: d.clone(),
                    },
                );
                self.push_pending(
                    PendingLineIndexUpdate::DirectoryAdd { path: d.clone(), inode_pos },
                );
                self.anchors.insert(d.clone(), inode_pos);
                assert(Ok::<BuildView, SkipView>(self@) == directory_step(s0, d@)) by {
                    let want = directory_step(s0, d@)->Ok_0;
                    assert(self@ =~= want);
                }
                Ok(())
            },
        }
    }

    /// Take in a new file.
    fn add_file(&mut self, file: &ParsedFile, graph_only: bool)
        requires
            old(self).wf(),
            file_fits(file@),
        ensures
            final(self).wf(),
            final(self)@ == added_step(old(self)@, file@, graph_only),
    {
        let ghost s0 = self@;
        let ghost fv = file@;
        let name = extract_filename(&file.path);
        let (start, end) = self.append_bytes(name.as_str().as_bytes());
        let inode_pos = Position { change: None, pos: end };
        let ghost named = self@.contents;
        match parent_anchor(&self.anchors, &file.path) {
            None => {
                self.push_skip(GraphFirstSkip::new(file, SkipReason::MissingParentDirectoryAnchor));
                assert(self@ =~= added_step(s0, fv, graph_only));
            },
            Some(parent) => {
                self.depend(&parent);
                let lines = match &file.new_content {
                    Some(c) => import_lines(&file.path, c, file.new_encoding),
                    None => {
                        let none: Vec<u8> = Vec::new();
                        assert(none@ =~= Seq::<u8>::empty());
                        import_lines(&file.path, &none, file.new_encoding)
                    },
                };
                let ghost lv = graph::byte_views(lines@);
                let ghost content = content_or_empty(fv);
                assert(lv == commit::import_lines_of(fv.path, content, fv.new_encoding));
                proof {
                    lemma_import_line_count(fv.path, content, fv.new_encoding);
                    commit::import_lines_make_up_the_content(fv.path, content, fv.new_encoding);
                }
                assert(lv.len() == lines@.len());
                let ranges = self.append_lines(&lines);
                assert(self@.contents.len() == named.len() + content.len());
                let first: Option<Insertion> = if ranges.len() > 0 {
                    Some(new_line_insertion(inode_pos, None, ranges[0], inode_pos))
                } else {
                    None
                };
                self.push_op(
                    GraphOp::FileAdd {
                        add_name: new_name_insertion(parent, None, start, end, parent),
                        add_inode: new_name_insertion(inode_pos, None, end, end, inode_pos),
                        contents: first,
                        path: file.path.clone(),
                        encoding: Some(file.new_encoding),
                    },
                );
                self.push_chain(
                    &file.path,
                    &ranges,
                    inode_pos,
                    1,
                    None,
                    Some(file.new_encoding),
                );
                if !graph_only {
                    let mut next: u64 = self.next_branch;
                    let ops = build_graph_first_file_ops_for_added_file(
                        &file.path,
                        &lines,
                        &ranges,
                        file.new_encoding,
                        self.next_file,
                        &mut next,
                    );
                    self.next_branch = next;
                    self.push_file_ops(ops);
                    self.next_file = self.next_file + 1;
                }
                self.push_pending(
                    PendingLineIndexUpdate::Add {
                        path: file.path.clone(),
                        inode_pos,
                        new_ranges: ranges,
                        new_lines: lines,
                    },
                );
                assert(self@ =~= added_step(s0, fv, graph_only));
            },
        }
    }

    /// Apply a list of blocks, and push the index update for them.
    fn push_blocks(
        &mut self,
        file: &ParsedFile,
        f: &ImportIndexedFile,
        bs: &Vec<GitReplacementBlock>,
        encoding: Option<Encoding>,
        kind: ReplacementKind,
    )
        requires
            old(self).wf(),
            forall|k: int| 0 <= k < bs@.len() ==> line_units::numbered(#[trigger] bs@[k]@),
        ensures
            final(self).wf(),
            final(self)@ == blocks_step(
                old(self)@,
                file@,
                f@,
                line_units::block_views(bs@),
                encoding,
                kind,
            ),
    {
        assert(line_units::block_views(bs@).len() == bs@.len());
        if bs.len() > 0 {
            let replacements = self.apply_blocks(file, f, bs, encoding, kind);
            self.push_pending(
                PendingLineIndexUpdate::Modify { path: file.path.clone(), replacements },
            );
        }
    }

    /// Give an indexed file its new name.
    fn move_file(&mut self, file: &ParsedFile, old_path: &String, f: &ImportIndexedFile)
        requires
            old(self).wf(),
        ensures
            final(self).wf(),
            final(self)@ == moved_step(old(self)@, file@, old_path@, f@),
    {
        let ghost s0 = self@;
        let name = extract_filename(&file.path);
        let (start, end) = self.append_bytes(name.as_str().as_bytes());
        let old_name = extract_filename(old_path);
        let old_end: u64 = f.inode_pos.pos;
        let n: usize = old_name.as_str().as_bytes().len();
        let old_start: u64 = if n as u64 <= old_end {
            old_end - n as u64
        } else {
            0
        };
        self.depend(&f.inode_pos);
        let edge = NewEdge {
            previous: EdgeFlags::folder_block(),
            flag: EdgeFlags::folder_block().into_deleted(),
            from: Position::root(),
            to: GraphNode { change: f.inode_pos.change, start: old_start, end: old_end },
            introduced_by: f.inode_pos.change,
        };
        assert(edge == name_deletion(f@, old_path@));
        let mut edges: Vec<NewEdge> = Vec::new();
        edges.push(edge);
        assert(edges@ =~= seq![name_deletion(f@, old_path@)]);
        self.push_op(
            GraphOp::FileMove {
                del: EdgeUpdate { edges, inode: f.inode_pos },
                add: new_name_insertion(
                    Position::root(),
                    Some(f.inode_pos),
                    start,
                    end,
                    f.inode_pos,
                ),
                path: file.path.clone(),
            },
        );
        self.push_pending(
            PendingLineIndexUpdate::Rename {
                old_path: old_path.clone(),
                new_path: file.path.clone(),
            },
        );
        assert(self@ =~= moved_step(s0, file@, old_path@, f@));
    }

    /// Take in a renamed file, the `i`th of its commit.
    fn rename_file(
        &mut self,
        file: &ParsedFile,
        i: usize,
        index: &ImportLineIndex,
        graph_only: bool,
    )
        requires
            old(self).wf(),
            index.wf(),
            file_fits(file@),
            index_fits(index@),
        ensures
            final(self).wf(),
            final(self)@ == renamed_step(old(self)@, file@, i, index@, graph_only),
    {
        match &file.old_path {
            None => {
                self.push_skip(GraphFirstSkip::new(file, SkipReason::RenameMissingOldPath));
            },
            Some(old_path) => {
                match index.files.get(old_path) {
                    None => {
                        self.push_skip(
                            GraphFirstSkip::new(file, SkipReason::RenameMissingLineIndex),
                        );
                    },
                    Some(f) => {
                        assert(index@.files[old_path@] == f@);
                        self.move_file(file, old_path, f);
                        let whole: bool = taken_in_one_piece(file);
                        if !graph_only && !whole && file.diff_lines.is_some() {
                            self.push_file_ops(
                                FileOps::FromDiff { path: file.path.clone(), file: i },
                            );
                        }
                        let none: Vec<u8> = Vec::new();
                        assert(none@ =~= Seq::<u8>::empty());
                        let content: &Vec<u8> = match &file.new_content {
                            Some(c) => c,
                            None => &none,
                        };
                        let blocks = if whole {
                            replace_whole(f, content)
                        } else {
                            current_state_replacements(&bytes_of_lines(f), content)
                        };
                        self.push_blocks(
                            file,
                            f,
                            &blocks,
                            Some(file.new_encoding),
                            ReplacementKind::Rename,
                        );
                    },
                }
            },
        }
    }

    /// Take in a deleted file, the `i`th of its commit.
    fn delete_file(
        &mut self,
        file: &ParsedFile,
        i: usize,
        index: &ImportLineIndex,
        graph_only: bool,
    )
        requires
            old(self).wf(),
            index.wf(),
        ensures
            final(self).wf(),
            final(self)@ == deleted_step(old(self)@, file@, i, index@, graph_only),
    {
        let ghost s0 = self@;
        self.push_pending(PendingLineIndexUpdate::Delete { path: file.path.clone() });
        let ghost gone = self@.deleted;
        self.deleted.push(file.path.clone());
        assert(text::texts(self.deleted@) =~= gone.push(file@.path));
        match index.files.get(&file.path) {
            None => {
                self.push_skip(GraphFirstSkip::new(file, SkipReason::DeleteMissingLineIndex));
                assert(self@ =~= deleted_step(s0, file@, i, index@, graph_only));
            },
            Some(f) => {
                assert(index@.files[file.path@] == f@);
                assert(f@.lines.len() == f.lines@.len());
                let edges = delete_edges(f, 0, f.lines.len());
                self.depend_on_lines(f, 0, f.lines.len());
                assert(f@.lines.subrange(0, f@.lines.len() as int) =~= f@.lines);
                self.push_op(
                    GraphOp::Edit {
                        change: Atom::EdgeUpdate(EdgeUpdate { edges, inode: f.inode_pos }),
                        path: file.path.clone(),
                        line: 1,
                        encoding: as_text(file.old_encoding),
                    },
                );
                if !graph_only && file.diff_lines.is_some() {
                    self.push_file_ops(FileOps::FromDiff { path: file.path.clone(), file: i });
                }
                assert(self@ =~= deleted_step(s0, file@, i, index@, graph_only));
            },
        }
    }

    /// Take in a modified file, the `i`th of its commit.
    fn modify_file(
        &mut self,
        file: &ParsedFile,
        i: usize,
        index: &ImportLineIndex,
        is_merge: bool,
        graph_only: bool,
    )
        requires
            old(self).wf(),
            index.wf(),
            file_fits(file@),
            index_fits(index@),
        ensures
            final(self).wf(),
            final(self)@ == modified_step(
                old(self)@,
                file@,
                i,
                index@,
                is_merge,
                graph_only,
            ),
    {
        match index.files.get(&file.path) {
            None => {
                self.push_skip(GraphFirstSkip::new(file, SkipReason::ModifiedMissingLineIndex));
            },
            Some(f) => {
                assert(index@.files[file.path@] == f@);
                match &file.new_content {
                    None => {
                        self.push_skip(
                            GraphFirstSkip::new(file, SkipReason::ModifiedMissingNewContent),
                        );
                    },
                    Some(content) => {
                        let blocks = if taken_in_one_piece(file) {
                            replace_whole(f, content)
                        } else if is_merge {
                            current_state_replacements(&bytes_of_lines(f), content)
                        } else {
                            match &file.diff_lines {
                                None => {
                                    self.push_skip(
                                        GraphFirstSkip::new(
                                            file,
                                            SkipReason::ModifiedMissingDiffLines,
                                        ),
                                    );
                                    return;
                                },
                                Some(diff) => {
                                    if !graph_only {
                                        self.push_file_ops(
                                            FileOps::FromDiff { path: file.path.clone(), file: i },
                                        );
                                    }
                                    parse_git_diff_replacements(diff)
                                },
                            }
                        };
                        self.push_blocks(
                            file,
                            f,
                            &blocks,
                            as_text(Some(file.new_encoding)),
                            ReplacementKind::Modify,
                        );
                    },
                }
            },
        }
    }
}

/// A copy of a map of anchors.
fn copy_anchors(anchors: &PathMap<Position>) -> (r: PathMap<Position>)
    requires
        anchors.wf(),
    ensures
        r.wf(),
        r@ == anchors@,
{
    let mut out: PathMap<Position> = PathMap { entries: Vec::new() };
    let mut i: usize = 0;
    while i < anchors.entries.len()
        invariant
            i <= anchors.entries@.len(),
            out.entries@ == anchors.entries@.take(i as int),
        decreases anchors.entries@.len() - i,
    {
        out.entries.push((anchors.entries[i].0.clone(), anchors.entries[i].1));
        assert(out.entries@ =~= anchors.entries@.take(i as int + 1));
        i += 1;
    }
    assert(out.entries@ =~= anchors.entries@);
    out
}

/// A change built graph-first, with what the line index owes it.
pub struct GraphFirstChange {
    /// The operations of the change.
    pub hunks: Vec<GraphOp>,
    /// Its semantic layer.
    pub file_ops: Vec<FileOps>,
    /// Its content.
    pub contents: Vec<u8>,
    /// The changes it depends on, in rising order, each once.
    pub dependencies: Vec<ContentHash>,
    /// The index updates to make once its hash is known.
    pub pending: Vec<PendingLineIndexUpdate>,
    /// The paths it deletes.
    pub deleted_paths: Vec<String>,
}

impl GraphFirstChange {
    /// Whether this is the change that a finished builder holds.
    pub open spec fn holds(&self, b: BuildView) -> bool {
        &&& graph::op_views(self.hunks@) == b.hunks
        &&& file_op_views(self.file_ops@) == b.file_ops
        &&& self.contents@ == b.contents
        &&& graph::hashes_rising(self.dependencies@)
        &&& self.dependencies@.to_set() == b.deps
        &&& line_index::pending_views(self.pending@) == b.pending
        &&& text::texts(self.deleted_paths@) == b.deleted
    }
}

/// The directories that the new files of a commit need.
pub fn needed_directories(files: &Vec<ParsedFile>) -> (r: Vec<String>)
    ensures
        text::texts(r@) == required_directories(commit::file_views(files@)),
{
    let mut out: Vec<String> = Vec::new();
    let ghost all = commit::file_views(files@);
    let mut i: usize = 0;
    assert(all.take(0) =~= Seq::<commit::ParsedFileView>::empty());
    assert(text::texts(out@) =~= required_directories(all.take(0)));
    while i < files.len()
        invariant
            i <= files@.len(),
            all == commit::file_views(files@),
            text::texts(out@) == required_directories(all.take(i as int)),
        decreases files@.len() - i,
    {
        assert(all.take(i as int + 1).drop_last() =~= all.take(i as int));
        assert(all.take(i as int + 1).last() == files@[i as int]@);
        if files[i].operation == FileOperation::Added || files[i].operation
            == FileOperation::Copied {
            insert_dirs(&mut out, ancestor_directories(&files[i].path));
        }
        i += 1;
    }
    assert(all.take(files@.len() as int) =~= all);
    out
}

proof fn lemma_refusal_stays(s: BuildView, ds: Seq<Seq<char>>, n: int)
    requires
        0 <= n <= ds.len(),
        directories_built(s, ds.take(n)) is Err,
    ensures
        directories_built(s, ds) == directories_built(s, ds.take(n)),
    decreases ds.len() - n,
{
    if n == ds.len() {
        assert(ds.take(n) =~= ds);
    } else {
        assert(ds.take(n + 1).drop_last() =~= ds.take(n));
        lemma_refusal_stays(s, ds, n + 1);
    }
}

/// A list of one skip.
fn one_skip(skip: GraphFirstSkip) -> (r: Vec<GraphFirstSkip>)
    ensures
        skip_views(r@) == seq![skip@],
{
    let ghost sv = skip@;
    let mut out: Vec<GraphFirstSkip> = Vec::new();
    out.push(skip);
    assert(skip_views(out@) =~= seq![sv]);
    out
}

/// The skip of a whole commit.
fn skip_commit(reason: SkipReason) -> (r: Vec<GraphFirstSkip>)
    ensures
        skip_views(r@) == seq![commit_skip(reason)],
{
    let skip = GraphFirstSkip { path: String::new(), operation: FileOperation::Modified, reason };
    assert(skip@ == commit_skip(reason));
    one_skip(skip)
}

impl GraphBuilder {
    /// Make sure of a list of directories, in turn.
    fn add_directories(&mut self, ds: &Vec<String>) -> (r: Result<(), GraphFirstSkip>)
        requires
            old(self).wf(),
        ensures
            final(self).wf(),
            match directories_built(old(self)@, text::texts(ds@)) {
                Ok(s) => r is Ok && final(self)@ == s,
                Err(e) => r matches Err(x) && x@ == e,
            },
    {
        let ghost all = text::texts(ds@);
        let ghost s0 = self@;
        let mut i: usize = 0;
        assert(all.take(0) =~= Seq::<Seq<char>>::empty());
        while i < ds.len()
            invariant
                i <= ds@.len(),
                all == text::texts(ds@),
                s0 == old(self)@,
                self.wf(),
                directories_built(s0, all.take(i as int)) == Ok::<BuildView, SkipView>(self@),
            decreases ds@.len() - i,
        {
            assert(all.take(i as int + 1).drop_last() =~= all.take(i as int));
            assert(all.take(i as int + 1).last() == ds@[i as int]@);
            match self.add_directory(&ds[i]) {
                Ok(_) => {},
                Err(e) => {
                    proof {
                        lemma_refusal_stays(s0, all, i as int + 1);
                    }
                    return Err(e);
                },
            }
            i += 1;
        }
        assert(all.take(ds@.len() as int) =~= all);
        Ok(())
    }

    /// Take in a list of files, in turn.
    fn take_files(
        &mut self,
        files: &Vec<ParsedFile>,
        index: &ImportLineIndex,
        is_merge: bool,
        graph_only: bool,
    )
        requires
            old(self).wf(),
            index.wf(),
            forall|k: int| 0 <= k < files@.len() ==> file_fits(#[trigger] files@[k]@),
            index_fits(index@),
        ensures
            final(self).wf(),
            final(self)@ == files_built(
                old(self)@,
                commit::file_views(files@),
                index@,
                is_merge,
                graph_only,
            ),
    {
        let ghost all = commit::file_views(files@);
        let ghost s0 = self@;
        let mut i: usize = 0;
        assert(all.take(0) =~= Seq::<commit::ParsedFileView>::empty());
        while i < files.len()
            invariant
                i <= files@.len(),
                all == commit::file_views(files@),
                self.wf(),
                index.wf(),
                forall|k: int| 0 <= k < files@.len() ==> file_fits(#[trigger] files@[k]@),
                index_fits(index@),
                self@ == files_built(s0, all.take(i as int), index@, is_merge, graph_only),
            decreases files@.len() - i,
        {
            assert(all.take(i as int + 1).drop_last() =~= all.take(i as int));
            assert(all.take(i as int + 1).last() == files@[i as int]@);
            let file: &ParsedFile = &files[i];
            assert(file_fits(files@[i as int]@));
            match file.operation {
                FileOperation::Added => {
                    self.add_file(file, graph_only);
                },
                FileOperation::Copied => {
                    self.add_file(file, graph_only);
                },
                FileOperation::Renamed => {
                    self.rename_file(file, i, index, graph_only);
                },
                FileOperation::Deleted => {
                    self.delete_file(file, i, index, graph_only);
                },
                FileOperation::Modified => {
                    self.modify_file(file, i, index, is_merge, graph_only);
                },
            }
            i += 1;
        }
        assert(all.take(files@.len() as int) =~= all);
    }
}

/// Build the change of a commit directly from what it did to its files: the
/// directories that its new files need come first, then the files in turn.
/// A commit that needs anything the index does not hold is refused with all
/// its reasons.
pub fn build_graph_first_change(
    parsed: &ParsedCommit,
    line_index: &ImportLineIndex,
    graph_only: bool,
) -> (r: Result<GraphFirstChange, Vec<GraphFirstSkip>>)
    requires
        line_index.wf(),
        forall|k: int| 0 <= k < parsed.files@.len() ==> file_fits(#[trigger] parsed.files@[k]@),
        index_fits(line_index@),
    ensures
        match graph_first(
            commit::file_views(parsed.files@),
            parsed.is_merge,
            line_index@,
            graph_only,
        ) {
            Ok(b) => r matches Ok(c) && c.holds(b),
            Err(skips) => r matches Err(e) && skip_views(e@) == skips,
        },
{
    assert(commit::file_views(parsed.files@).len() == parsed.files@.len());
    if parsed.files.len() == 0 {
        return Err(skip_commit(SkipReason::EmptyCommit));
    }
    let mut b = GraphBuilder::start(&line_index.directories);
    let ds = needed_directories(&parsed.files);
    match b.add_directories(&ds) {
        Ok(_) => {},
        Err(skip) => {
            return Err(one_skip(skip));
        },
    }
    b.take_files(&parsed.files, line_index, parsed.is_merge, graph_only);
    assert(b@.skips.len() == b.skips@.len());
    assert(b@.hunks.len() == b.hunks@.len());
    if b.skips.len() > 0 {
        return Err(b.skips);
    }
    if b.hunks.len() == 0 {
        return Err(skip_commit(SkipReason::NoGraphHunks));
    }
    Ok(
        GraphFirstChange {
            hunks: b.hunks,
            file_ops: b.file_ops,
            contents: b.contents,
            dependencies: b.deps,
            pending: b.pending,
            deleted_paths: b.deleted,
        },
    )
}

/// Why one file is in the way of a graph-first import, as far as the index
/// alone tells.
pub open spec fn file_skip_reason(
    f: commit::ParsedFileView,
    idx: line_index::LineIndexView,
    is_merge: bool,
) -> Option<SkipReason> {
    match f.operation {
        FileOperation::Modified => modified_refusal(f, idx, is_merge),
        FileOperation::Deleted => Some(SkipReason::DeleteRequiresStructuralFileDel),
        FileOperation::Renamed => match f.old_path {
            None => Some(SkipReason::RenameMissingOldPath),
            Some(old) => if idx.files.contains_key(old) {
                None
            } else {
                Some(SkipReason::RenameMissingLineIndex)
            },
        },
        FileOperation::Added | FileOperation::Copied => None,
    }
}

/// The files that are in the way, in turn.
pub open spec fn skip_reasons(
    files: Seq<commit::ParsedFileView>,
    idx: line_index::LineIndexView,
    is_merge: bool,
) -> Seq<SkipView>
    decreases files.len(),
{
    if files.len() == 0 {
        seq![]
    } else {
        let head = skip_reasons(files.drop_last(), idx, is_merge);
        match file_skip_reason(files.last(), idx, is_merge) {
            Some(reason) => head.push(file_skip(files.last(), reason)),
            None => head,
        }
    }
}

fn reason_to_skip(file: &ParsedFile, index: &ImportLineIndex, is_merge: bool) -> (r: Option<
    SkipReason,
>)
    requires
        index.wf(),
    ensures
        r == file_skip_reason(file@, index@, is_merge),
{
    match file.operation {
        FileOperation::Modified => {
            if !index.files.contains_key(&file.path) {
                Some(SkipReason::ModifiedMissingLineIndex)
            } else if file.new_content.is_none() {
                Some(SkipReason::ModifiedMissingNewContent)
            } else if !is_merge && !taken_in_one_piece(file) && file.diff_lines.is_none() {
                Some(SkipReason::ModifiedMissingDiffLines)
            } else {
                None
            }
        },
        FileOperation::Deleted => Some(SkipReason::DeleteRequiresStructuralFileDel),
        FileOperation::Renamed => match &file.old_path {
            None => Some(SkipReason::RenameMissingOldPath),
            Some(old) => if index.files.contains_key(old) {
                None
            } else {
                Some(SkipReason::RenameMissingLineIndex)
            },
        },
        FileOperation::Added => None,
        FileOperation::Copied => None,
    }
}

/// The files of a commit that are in the way of a graph-first import, each
/// with its reason.
pub fn build_graph_first_skip_reasons(parsed: &ParsedCommit, line_index: &ImportLineIndex) -> (r:
    Vec<GraphFirstSkip>)
    requires
        line_index.wf(),
    ensures
        skip_views(r@) == skip_reasons(
            commit::file_views(parsed.files@),
            line_index@,
            parsed.is_merge,
        ),
{
    let ghost all = commit::file_views(parsed.files@);
    let mut out: Vec<GraphFirstSkip> = Vec::new();
    let mut i: usize = 0;
    assert(all.take(0) =~= Seq::<commit::ParsedFileView>::empty());
    assert(skip_views(out@) =~= Seq::<SkipView>::empty());
    while i < parsed.files.len()
        invariant
            i <= parsed.files@.len(),
            line_index.wf(),
            all == commit::file_views(parsed.files@),
            skip_views(out@) == skip_reasons(all.take(i as int), line_index@, parsed.is_merge),
        decreases parsed.files@.len() - i,
    {
        assert(all.take(i as int + 1).drop_last() =~= all.take(i as int));
        assert(all.take(i as int + 1).last() == parsed.files@[i as int]@);
        let file: &ParsedFile = &parsed.files[i];
        if let Some(reason) = reason_to_skip(file, line_index, parsed.is_merge) {
            let ghost before = skip_views(out@);
            let skip = GraphFirstSkip::new(file, reason);
            let ghost sv = skip@;
            out.push(skip);
            assert(skip_views(out@) =~= before.push(sv));
        }
        i += 1;
    }
    assert(all.take(parsed.files@.len() as int) =~= all);
    out
}

} // verus!
