//! The line index of an import: for every imported file the graph position
//! of each of its lines, and for every directory its anchor.
use crate::commit;
use crate::commit::{import_lines, FileOperation, ParsedFile};
use crate::graph;
use crate::graph::{
    insert_hash, Atom, ContentHash, Encoding, GraphNode, GraphOp, Position,
};
use crate::graph_first::needed_directories;
use crate::line_units;
use crate::line_units::{clone_bytes, copy_bytes};
use crate::paths::PathMap;
use crate::text;
use vstd::prelude::*;

verus! {

/// One indexed line: where it stands in the graph and what it holds.
#[derive(Debug)]
pub struct ImportLine {
    pub change: ContentHash,
    pub start: u64,
    pub end: u64,
    /// The change that introduced the edge leading to this line.
    pub incoming_by: ContentHash,
    pub content: Vec<u8>,
}

/// An `ImportLine` as a value.
#[verifier::ext_equal]
pub struct ImportLineView {
    pub change: ContentHash,
    pub start: u64,
    pub end: u64,
    pub incoming_by: ContentHash,
    pub content: Seq<u8>,
}

impl View for ImportLine {
    type V = ImportLineView;

    open spec fn view(&self) -> ImportLineView {
        ImportLineView {
            change: self.change,
            start: self.start,
            end: self.end,
            incoming_by: self.incoming_by,
            content: self.content@,
        }
    }
}

impl ImportLineView {
    /// The node of the line.
    pub open spec fn node(self) -> GraphNode {
        GraphNode { change: Some(self.change), start: self.start, end: self.end }
    }

    /// Where the line starts.
    pub open spec fn start_pos(self) -> Position {
        Position { change: Some(self.change), pos: self.start }
    }

    /// Where the line ends.
    pub open spec fn end_pos(self) -> Position {
        Position { change: Some(self.change), pos: self.end }
    }
}

impl ImportLine {
    /// The node of the line.
    pub fn node(&self) -> (r: GraphNode)
        ensures
            r == self@.node(),
    {
        GraphNode { change: Some(self.change), start: self.start, end: self.end }
    }

    /// Where the line starts.
    pub fn start_pos(&self) -> (r: Position)
        ensures
            r == self@.start_pos(),
    {
        Position { change: Some(self.change), pos: self.start }
    }

    /// Where the line ends.
    pub fn end_pos(&self) -> (r: Position)
        ensures
            r == self@.end_pos(),
    {
        Position { change: Some(self.change), pos: self.end }
    }
}

/// The views of a list of lines.
pub open spec fn line_views(v: Seq<ImportLine>) -> Seq<ImportLineView> {
    v.map_values(|l: ImportLine| l@)
}

/// The contents of a list of lines.
pub open spec fn line_contents(v: Seq<ImportLineView>) -> Seq<Seq<u8>> {
    v.map_values(|l: ImportLineView| l.content)
}

/// An indexed file.
#[derive(Debug)]
pub struct ImportIndexedFile {
    pub inode_pos: Position,
    pub lines: Vec<ImportLine>,
    /// How many imported commits touched the file.
    pub imported_commits: u64,
}

/// An `ImportIndexedFile` as a value.
#[verifier::ext_equal]
pub struct IndexedFileView {
    pub inode_pos: Position,
    pub lines: Seq<ImportLineView>,
    pub imported_commits: u64,
}

impl View for ImportIndexedFile {
    type V = IndexedFileView;

    open spec fn view(&self) -> IndexedFileView {
        IndexedFileView {
            inode_pos: self.inode_pos,
            lines: line_views(self.lines@),
            imported_commits: self.imported_commits,
        }
    }
}

/// The line index.
pub struct ImportLineIndex {
    pub files: PathMap<ImportIndexedFile>,
    pub directories: PathMap<Position>,
}

/// An `ImportLineIndex` as a value.
#[verifier::ext_equal]
pub struct LineIndexView {
    pub files: Map<Seq<char>, IndexedFileView>,
    pub directories: Map<Seq<char>, Position>,
}

/// The files of an index, by view.
pub open spec fn indexed_files(m: Map<Seq<char>, ImportIndexedFile>) -> Map<
    Seq<char>,
    IndexedFileView,
> {
    Map::new(|k: Seq<char>| m.contains_key(k), |k: Seq<char>| m[k]@)
}

impl View for ImportLineIndex {
    type V = LineIndexView;

    open spec fn view(&self) -> LineIndexView {
        LineIndexView { files: indexed_files(self.files@), directories: self.directories@ }
    }
}

/// A new range of content with the line it holds.
pub open spec fn current_line(hash: ContentHash, range: (u64, u64), content: Seq<u8>) -> ImportLineView {
    ImportLineView {
        change: hash,
        start: range.0,
        end: range.1,
        incoming_by: hash,
        content,
    }
}

/// The shorter of two lengths.
pub open spec fn shorter(a: nat, b: nat) -> nat {
    if a <= b {
        a
    } else {
        b
    }
}

/// The lines of one change, from their ranges and contents.
pub open spec fn current_lines(
    hash: ContentHash,
    ranges: Seq<(u64, u64)>,
    contents: Seq<Seq<u8>>,
) -> Seq<ImportLineView> {
    Seq::new(
        shorter(ranges.len(), contents.len()),
        |i: int| current_line(hash, ranges[i], contents[i]),
    )
}

/// The lines of one change, from their ranges and contents.
fn lines_of_change(
    hash: ContentHash,
    ranges: &Vec<(u64, u64)>,
    contents: &Vec<Vec<u8>>,
) -> (r: Vec<ImportLine>)
    ensures
        line_views(r@) == current_lines(hash, ranges@, graph::byte_views(contents@)),
        r@.len() == shorter(ranges@.len(), contents@.len()),
{
    let ghost want = current_lines(hash, ranges@, graph::byte_views(contents@));
    let mut out: Vec<ImportLine> = Vec::new();
    let mut i: usize = 0;
    assert(line_views(out@) =~= want.take(0));
    while i < ranges.len() && i < contents.len()
        invariant
            i <= ranges@.len(),
            i <= contents@.len(),
            want == current_lines(hash, ranges@, graph::byte_views(contents@)),
            line_views(out@) == want.take(i as int),
            out@.len() == i,
        decreases ranges@.len() - i,
    {
        let ghost before = line_views(out@);
        let line = ImportLine {
            change: hash,
            start: ranges[i].0,
            end: ranges[i].1,
            incoming_by: hash,
            content: clone_bytes(&contents[i]),
        };
        let ghost lv = line@;
        out.push(line);
        assert(lv == want[i as int]);
        assert(line_views(out@) =~= before.push(lv));
        assert(line_views(out@) =~= want.take(i as int + 1));
        i += 1;
    }
    assert(want.take(i as int) =~= want);
    out
}

/// A replacement of lines that waits for the hash of its change.
#[derive(Debug)]
pub struct PendingLineReplacement {
    pub start_idx: u64,
    pub old_len: u64,
    pub new_ranges: Vec<(u64, u64)>,
    pub new_lines: Vec<Vec<u8>>,
    /// Whether the line behind the replaced ones now hangs on this change.
    pub successor_incoming_by_current: bool,
}

/// A `PendingLineReplacement` as a value.
#[verifier::ext_equal]
pub struct PendingReplacementView {
    pub start_idx: u64,
    pub old_len: u64,
    pub new_ranges: Seq<(u64, u64)>,
    pub new_lines: Seq<Seq<u8>>,
    pub successor_incoming_by_current: bool,
}

impl View for PendingLineReplacement {
    type V = PendingReplacementView;

    open spec fn view(&self) -> PendingReplacementView {
        PendingReplacementView {
            start_idx: self.start_idx,
            old_len: self.old_len,
            new_ranges: self.new_ranges@,
            new_lines: graph::byte_views(self.new_lines@),
            successor_incoming_by_current: self.successor_incoming_by_current,
        }
    }
}

/// The views of a list of replacements.
pub open spec fn replacement_views(v: Seq<PendingLineReplacement>) -> Seq<
    PendingReplacementView,
> {
    v.map_values(|r: PendingLineReplacement| r@)
}

/// An index update that waits for the hash of its change.
#[derive(Debug)]
pub enum PendingLineIndexUpdate {
    DirectoryAdd { path: String, inode_pos: Position },
    Add {
        path: String,
        inode_pos: Position,
        new_ranges: Vec<(u64, u64)>,
        new_lines: Vec<Vec<u8>>,
    },
    Modify { path: String, replacements: Vec<PendingLineReplacement> },
    Rename { old_path: String, new_path: String },
    Delete { path: String },
}

/// A `PendingLineIndexUpdate` as a value.
pub enum PendingView {
    DirectoryAdd { path: Seq<char>, inode_pos: Position },
    Add {
        path: Seq<char>,
        inode_pos: Position,
        new_ranges: Seq<(u64, u64)>,
        new_lines: Seq<Seq<u8>>,
    },
    Modify { path: Seq<char>, replacements: Seq<PendingReplacementView> },
    Rename { old_path: Seq<char>, new_path: Seq<char> },
    Delete { path: Seq<char> },
}

impl View for PendingLineIndexUpdate {
    type V = PendingView;

    open spec fn view(&self) -> PendingView {
        match self {
            PendingLineIndexUpdate::DirectoryAdd { path, inode_pos } => PendingView::DirectoryAdd {
                path: path@,
                inode_pos: *inode_pos,
            },
            PendingLineIndexUpdate::Add { path, inode_pos, new_ranges, new_lines } =>
                PendingView::Add {
                path: path@,
                inode_pos: *inode_pos,
                new_ranges: new_ranges@,
                new_lines: graph::byte_views(new_lines@),
            },
            PendingLineIndexUpdate::Modify { path, replacements } => PendingView::Modify {
                path: path@,
                replacements: replacement_views(replacements@),
            },
            PendingLineIndexUpdate::Rename { old_path, new_path } => PendingView::Rename {
                old_path: old_path@,
                new_path: new_path@,
            },
            PendingLineIndexUpdate::Delete { path } => PendingView::Delete { path: path@ },
        }
    }
}

/// The views of a list of updates.
pub open spec fn pending_views(v: Seq<PendingLineIndexUpdate>) -> Seq<PendingView> {
    v.map_values(|u: PendingLineIndexUpdate| u@)
}

/// Where a replacement starts once earlier ones have shifted the lines by
/// `offset`.
pub open spec fn shifted_start(start: u64, offset: int) -> int {
    if start + offset < 0 {
        0
    } else {
        start + offset
    }
}

/// One past the last replaced line.
pub open spec fn shifted_end(start: int, old_len: u64, len: nat) -> int {
    if start + old_len < len {
        start + old_len
    } else {
        len as int
    }
}

/// The lines after one replacement; `None` when it starts behind the last
/// line.
pub open spec fn spliced(
    lines: Seq<ImportLineView>,
    hash: ContentHash,
    r: PendingReplacementView,
    offset: int,
) -> Option<Seq<ImportLineView>> {
    let a = shifted_start(r.start_idx, offset);
    if a > lines.len() {
        None
    } else {
        let b = shifted_end(a, r.old_len, lines.len());
        let out = lines.take(a) + current_lines(hash, r.new_ranges, r.new_lines) + lines.skip(b);
        let s = a + r.new_ranges.len();
        if r.successor_incoming_by_current && s < out.len() {
            Some(out.update(s, ImportLineView { incoming_by: hash, ..out[s] }))
        } else {
            Some(out)
        }
    }
}

/// How far a list of replacements shifts the lines behind it.
pub open spec fn shift_of(rs: Seq<PendingReplacementView>) -> int
    decreases rs.len(),
{
    if rs.len() == 0 {
        0
    } else {
        shift_of(rs.drop_last()) + rs.last().new_ranges.len() - rs.last().old_len
    }
}

/// The lines after a list of replacements, made in turn.
pub open spec fn replaced_lines(
    lines: Seq<ImportLineView>,
    hash: ContentHash,
    rs: Seq<PendingReplacementView>,
) -> Option<Seq<ImportLineView>>
    decreases rs.len(),
{
    if rs.len() == 0 {
        Some(lines)
    } else {
        match replaced_lines(lines, hash, rs.drop_last()) {
            Some(l) => spliced(l, hash, rs.last(), shift_of(rs.drop_last())),
            None => None,
        }
    }
}

/// A file after a list of replacements.
pub open spec fn modified_file(
    f: IndexedFileView,
    hash: ContentHash,
    rs: Seq<PendingReplacementView>,
) -> Option<IndexedFileView> {
    match replaced_lines(f.lines, hash, rs) {
        None => None,
        Some(lines) => if rs.len() == 0 {
            Some(f)
        } else if f.imported_commits == u64::MAX || rs.len() > line_units::MAX_RECORDS {
            None
        } else {
            Some(
                IndexedFileView {
                    inode_pos: f.inode_pos,
                    lines,
                    imported_commits: (f.imported_commits + 1) as u64,
                },
            )
        },
    }
}

/// The index after one update; `None` when the update does not fit it.
pub open spec fn updated(idx: LineIndexView, hash: ContentHash, u: PendingView) -> Option<
    LineIndexView,
> {
    match u {
        PendingView::DirectoryAdd { path, inode_pos } => Some(
            LineIndexView {
                directories: idx.directories.insert(
                    path,
                    Position { change: Some(hash), pos: inode_pos.pos },
                ),
                ..idx
            },
        ),
        PendingView::Add { path, inode_pos, new_ranges, new_lines } => Some(
            LineIndexView {
                files: idx.files.insert(
                    path,
                    IndexedFileView {
                        inode_pos: Position { change: Some(hash), pos: inode_pos.pos },
                        lines: current_lines(hash, new_ranges, new_lines),
                        imported_commits: 1,
                    },
                ),
                ..idx
            },
        ),
        PendingView::Modify { path, replacements } => if !idx.files.contains_key(path) {
            Some(idx)
        } else {
            match modified_file(idx.files[path], hash, replacements) {
                Some(f) => Some(LineIndexView { files: idx.files.insert(path, f), ..idx }),
                None => None,
            }
        },
        PendingView::Rename { old_path, new_path } => if !idx.files.contains_key(old_path) {
            Some(idx)
        } else {
            Some(
                LineIndexView {
                    files: idx.files.remove(old_path).insert(new_path, idx.files[old_path]),
                    ..idx
                },
            )
        },
        PendingView::Delete { path } => Some(
            LineIndexView { files: idx.files.remove(path), ..idx },
        ),
    }
}

/// The index after a list of updates, made in turn.
pub open spec fn updated_all(idx: LineIndexView, hash: ContentHash, us: Seq<PendingView>) -> Option<
    LineIndexView,
>
    decreases us.len(),
{
    if us.len() == 0 {
        Some(idx)
    } else {
        match updated_all(idx, hash, us.drop_last()) {
            Some(i) => updated(i, hash, us.last()),
            None => None,
        }
    }
}

proof fn lemma_misfit_stays(idx: LineIndexView, hash: ContentHash, us: Seq<PendingView>, n: int)
    requires
        0 <= n <= us.len(),
        updated_all(idx, hash, us.take(n)) is None,
    ensures
        updated_all(idx, hash, us) is None,
    decreases us.len() - n,
{
    if n == us.len() {
        assert(us.take(n) =~= us);
    } else {
        assert(us.take(n + 1).drop_last() =~= us.take(n));
        lemma_misfit_stays(idx, hash, us, n + 1);
    }
}

proof fn lemma_bad_replacement_stays(
    lines: Seq<ImportLineView>,
    hash: ContentHash,
    rs: Seq<PendingReplacementView>,
    n: int,
)
    requires
        0 <= n <= rs.len(),
        replaced_lines(lines, hash, rs.take(n)) is None,
    ensures
        replaced_lines(lines, hash, rs) is None,
    decreases rs.len() - n,
{
    if n == rs.len() {
        assert(rs.take(n) =~= rs);
    } else {
        assert(rs.take(n + 1).drop_last() =~= rs.take(n));
        lemma_bad_replacement_stays(lines, hash, rs, n + 1);
    }
}

/// Replace the lines from `a` up to `b` by `new`.
fn splice_lines(lines: &mut Vec<ImportLine>, a: usize, b: usize, new: Vec<ImportLine>)
    requires
        a <= b <= old(lines)@.len(),
    ensures
        line_views(final(lines)@) == line_views(old(lines)@).take(a as int) + line_views(new@)
            + line_views(old(lines)@).skip(b as int),
        final(lines)@.len() == a + new@.len() + old(lines)@.len() - b,
{
    let mut new = new;
    let ghost before = lines@;
    let ghost middle = new@;
    let mut tail = lines.split_off(b);
    lines.truncate(a);
    lines.append(&mut new);
    lines.append(&mut tail);
    assert(lines@ =~= before.take(a as int) + middle + before.skip(b as int));
    assert(line_views(lines@) =~= line_views(before).take(a as int) + line_views(middle)
        + line_views(before).skip(b as int));
}

/// No list of replacements shifts lines further than this.
const OFFSET_BOUND: i128 = 0x4000_0000_0000_0000_0000_0000_0000_0000;

/// Make one replacement; `false` when it starts behind the last line.
fn replace_lines(
    lines: &mut Vec<ImportLine>,
    hash: ContentHash,
    r: &PendingLineReplacement,
    offset: i128,
) -> (ok: bool)
    requires
        -OFFSET_BOUND <= offset <= OFFSET_BOUND,
    ensures
        match spliced(line_views(old(lines)@), hash, r@, offset as int) {
            Some(l) => ok && line_views(final(lines)@) == l,
            None => !ok,
        },
{
    let shifted: i128 = r.start_idx as i128 + offset;
    let wide: i128 = if shifted < 0 {
        0
    } else {
        shifted
    };
    if wide > lines.len() as i128 {
        return false;
    }
    let a: usize = wide as usize;
    let end: u128 = a as u128 + r.old_len as u128;
    let b: usize = if end < lines.len() as u128 {
        end as usize
    } else {
        lines.len()
    };
    let new = lines_of_change(hash, &r.new_ranges, &r.new_lines);
    splice_lines(lines, a, b, new);
    let ghost out = line_views(lines@);
    if r.successor_incoming_by_current {
        let n: usize = r.new_ranges.len();
        if n < lines.len() && a < lines.len() - n {
            let s: usize = a + n;
            let line = lines.remove(s);
            let line = ImportLine { incoming_by: hash, ..line };
            lines.insert(s, line);
            assert(line_views(lines@) =~= out.update(
                s as int,
                ImportLineView { incoming_by: hash, ..out[s as int] },
            ));
        }
    }
    true
}

/// Make a list of replacements in a file; `false` when one does not fit.
fn modify_file(
    f: &mut ImportIndexedFile,
    hash: ContentHash,
    rs: &Vec<PendingLineReplacement>,
) -> (ok: bool)
    ensures
        match modified_file(old(f)@, hash, replacement_views(rs@)) {
            Some(v) => ok && final(f)@ == v,
            None => !ok,
        },
{
    let ghost all = replacement_views(rs@);
    let ghost start = f@;
    assert(all.len() == rs@.len());
    if rs.len() as u64 > line_units::MAX_RECORDS {
        return false;
    }
    let mut offset: i128 = 0;
    let mut i: usize = 0;
    assert(all.take(0) =~= Seq::<PendingReplacementView>::empty());
    while i < rs.len()
        invariant
            i <= rs@.len(),
            all == replacement_views(rs@),
            replaced_lines(start.lines, hash, all.take(i as int)) == Some(line_views(f.lines@)),
            f.inode_pos == start.inode_pos,
            f.imported_commits == start.imported_commits,
            offset == shift_of(all.take(i as int)),
            -(i * 0x1_0000_0000_0000_0000) <= offset <= i * 0x1_0000_0000_0000_0000,
            start == old(f)@,
            rs@.len() <= line_units::MAX_RECORDS,
        decreases rs@.len() - i,
    {
        assert(all.take(i as int + 1).drop_last() =~= all.take(i as int));
        assert(all.take(i as int + 1).last() == rs@[i as int]@);
        assert(-OFFSET_BOUND <= offset <= OFFSET_BOUND);
        if !replace_lines(&mut f.lines, hash, &rs[i], offset) {
            proof {
                lemma_bad_replacement_stays(start.lines, hash, all, i as int + 1);
            }
            return false;
        }
        offset = offset + rs[i].new_ranges.len() as i128 - rs[i].old_len as i128;
        i += 1;
    }
    assert(all.take(rs@.len() as int) =~= all);
    if rs.len() > 0 {
        if f.imported_commits == u64::MAX {
            return false;
        }
        f.imported_commits = f.imported_commits + 1;
    }
    true
}

impl ImportLineIndex {
    /// No path is indexed twice.
    pub open spec fn wf(&self) -> bool {
        self.files.wf() && self.directories.wf()
    }

    /// The empty index.
    pub fn new() -> (r: ImportLineIndex)
        ensures
            r.wf(),
            r@ == (LineIndexView { files: Map::empty(), directories: Map::empty() }),
    {
        let r = ImportLineIndex { files: PathMap::new(), directories: PathMap::new() };
        assert(r@.files =~= Map::empty());
        r
    }

    /// Make one update; `false` when it does not fit the index.
    fn apply_update(&mut self, hash: ContentHash, u: &PendingLineIndexUpdate) -> (ok: bool)
        requires
            old(self).wf(),
        ensures
            final(self).wf(),
            match updated(old(self)@, hash, u@) {
                Some(v) => ok && final(self)@ == v,
                None => !ok,
            },
    {
        let ghost before = self@;
        let ghost files = self.files@;
        match u {
            PendingLineIndexUpdate::DirectoryAdd { path, inode_pos } => {
                self.directories.insert(
                    path.clone(),
                    Position { change: Some(hash), pos: inode_pos.pos },
                );
                true
            },
            PendingLineIndexUpdate::Add { path, inode_pos, new_ranges, new_lines } => {
                let ghost pv = path@;
                let f = ImportIndexedFile {
                    inode_pos: Position { change: Some(hash), pos: inode_pos.pos },
                    lines: lines_of_change(hash, new_ranges, new_lines),
                    imported_commits: 1,
                };
                let ghost fv = f@;
                self.files.insert(path.clone(), f);
                assert(self@.files =~= before.files.insert(pv, fv));
                true
            },
            PendingLineIndexUpdate::Modify { path, replacements } => {
                let ghost pv = path@;
                match self.files.remove(path) {
                    None => {
                        assert(self@.files =~= before.files);
                        true
                    },
                    Some(f) => {
                        let mut f = f;
                        assert(before.files[pv] == f@);
                        let ok = modify_file(&mut f, hash, replacements);
                        let ghost fv = f@;
                        self.files.insert(path.clone(), f);
                        assert(ok ==> self@.files =~= before.files.insert(pv, fv));
                        ok
                    },
                }
            },
            PendingLineIndexUpdate::Rename { old_path, new_path } => {
                let ghost nv = new_path@;
                let ghost ov = old_path@;
                match self.files.remove(old_path) {
                    None => {
                        assert(self@.files =~= before.files);
                        true
                    },
                    Some(f) => {
                        assert(before.files[ov] == f@);
                        let ghost fv = f@;
                        self.files.insert(new_path.clone(), f);
                        assert(self@.files =~= before.files.remove(ov).insert(nv, fv));
                        true
                    },
                }
            },
            PendingLineIndexUpdate::Delete { path } => {
                let ghost pv = path@;
                let gone = self.files.remove(path);
                assert(self@.files =~= before.files.remove(pv));
                true
            },
        }
    }

    /// Bring the index up to date with the change `hash` that was just
    /// written: make its pending updates in turn. `false` when a replacement
    /// starts behind the last line of its file, or a counter is exhausted;
    /// the index is then of no further use.
    pub fn apply_line_index_updates(
        &mut self,
        hash: ContentHash,
        pending: &Vec<PendingLineIndexUpdate>,
    ) -> (ok: bool)
        requires
            old(self).wf(),
        ensures
            final(self).wf(),
            match updated_all(old(self)@, hash, pending_views(pending@)) {
                Some(v) => ok && final(self)@ == v,
                None => !ok,
            },
    {
        let ghost all = pending_views(pending@);
        let ghost start = self@;
        let mut i: usize = 0;
        assert(all.take(0) =~= Seq::<PendingView>::empty());
        while i < pending.len()
            invariant
                i <= pending@.len(),
                self.wf(),
                start == old(self)@,
                all == pending_views(pending@),
                updated_all(start, hash, all.take(i as int)) == Some(self@),
            decreases pending@.len() - i,
        {
            assert(all.take(i as int + 1).drop_last() =~= all.take(i as int));
            assert(all.take(i as int + 1).last() == pending@[i as int]@);
            if !self.apply_update(hash, &pending[i]) {
                proof {
                    lemma_misfit_stays(start, hash, all, i as int + 1);
                }
                return false;
            }
            i += 1;
        }
        assert(all.take(pending@.len() as int) =~= all);
        true
    }
}

/// Where a line of a file stands in the graph.
#[derive(Clone, Copy, Debug, PartialEq, Eq, Structural)]
pub struct SeedLine {
    pub change: ContentHash,
    pub start: u64,
    pub end: u64,
    pub incoming_by: ContentHash,
}

/// Where a file and its lines stand in the graph.
#[derive(Debug)]
pub struct LineIndexSeed {
    pub inode_change: ContentHash,
    pub inode_at: u64,
    pub lines: Vec<SeedLine>,
}

/// A `LineIndexSeed` as a value.
#[verifier::ext_equal]
pub struct SeedView {
    pub inode_change: ContentHash,
    pub inode_at: u64,
    pub lines: Seq<SeedLine>,
}

impl View for LineIndexSeed {
    type V = SeedView;

    open spec fn view(&self) -> SeedView {
        SeedView {
            inode_change: self.inode_change,
            inode_at: self.inode_at,
            lines: self.lines@,
        }
    }
}

/// The view of an optional seed.
pub open spec fn opt_seed(o: Option<LineIndexSeed>) -> Option<SeedView> {
    match o {
        Some(s) => Some(s@),
        None => None,
    }
}

/// The changes that led to a list of lines.
pub open spec fn leading_changes(ls: Seq<SeedLine>) -> Set<ContentHash> {
    ls.map_values(|l: SeedLine| l.incoming_by).to_set()
}

/// The larger of two numbers.
pub open spec fn larger(a: nat, b: nat) -> nat {
    if a >= b {
        a
    } else {
        b
    }
}

/// One indexed line, from its place in the graph and its content.
pub open spec fn seeded_line(l: SeedLine, content: Seq<u8>) -> ImportLineView {
    ImportLineView {
        change: l.change,
        start: l.start,
        end: l.end,
        incoming_by: l.incoming_by,
        content,
    }
}

/// The indexed file that a seed and the contents of its lines make up. It
/// counts at least `hint` imported commits, and at least one.
pub open spec fn seeded_file(seed: SeedView, contents: Seq<Seq<u8>>, hint: u64) -> IndexedFileView {
    IndexedFileView {
        inode_pos: Position { change: Some(seed.inode_change), pos: seed.inode_at },
        lines: Seq::new(seed.lines.len(), |i: int| seeded_line(seed.lines[i], contents[i])),
        imported_commits: larger(
            larger(leading_changes(seed.lines).len(), hint as nat),
            1,
        ) as u64,
    }
}

/// The index after a file was seeded; unchanged where the graph does not
/// know the file, or knows another number of lines.
pub open spec fn seeded(
    idx: LineIndexView,
    path: Seq<char>,
    contents: Seq<Seq<u8>>,
    seed: Option<SeedView>,
    hint: u64,
) -> LineIndexView {
    match seed {
        Some(seed) => if seed.lines.len() == contents.len() {
            LineIndexView {
                files: idx.files.insert(path, seeded_file(seed, contents, hint)),
                ..idx
            }
        } else {
            idx
        },
        None => idx,
    }
}

proof fn lemma_set_count(v: Seq<ContentHash>)
    requires
        graph::hashes_rising(v),
    ensures
        v.to_set().len() == v.len(),
{
    assert(v.no_duplicates()) by {
        assert forall|i: int, j: int| 0 <= i < v.len() && 0 <= j < v.len() && i != j implies v[i]
            != v[j] by {
            if i < j {
                assert(graph::hash_less(v[i], v[j]));
            } else {
                assert(graph::hash_less(v[j], v[i]));
            }
        }
    }
    v.unique_seq_to_set();
}

/// Number of changes that led to a list of lines.
fn count_leading_changes(ls: &Vec<SeedLine>) -> (r: usize)
    ensures
        r == leading_changes(ls@).len(),
{
    let mut seen: Vec<ContentHash> = Vec::new();
    let ghost all = ls@.map_values(|l: SeedLine| l.incoming_by);
    let mut i: usize = 0;
    assert(seen@.to_set() =~= all.take(0).to_set());
    while i < ls.len()
        invariant
            i <= ls@.len(),
            all == ls@.map_values(|l: SeedLine| l.incoming_by),
            graph::hashes_rising(seen@),
            seen@.to_set() == all.take(i as int).to_set(),
        decreases ls@.len() - i,
    {
        insert_hash(&mut seen, ls[i].incoming_by);
        assert(all.take(i as int + 1) =~= all.take(i as int).push(all[i as int]));
        assert(all.take(i as int + 1).to_set() =~= all.take(i as int).to_set().insert(
            all[i as int],
        )) by {
            lemma_push_to_set(all.take(i as int), all[i as int]);
        }
        i += 1;
    }
    assert(all.take(i as int) =~= all);
    proof {
        lemma_set_count(seen@);
    }
    seen.len()
}

/// Pushing inserts into the set of a list.
pub proof fn lemma_push_to_set(s: Seq<ContentHash>, x: ContentHash)
    ensures
        s.push(x).to_set() == s.to_set().insert(x),
{
    assert forall|y: ContentHash| s.push(x).to_set().contains(y) == s.to_set().insert(x).contains(
        y,
    ) by {
        if s.contains(y) {
            let k: int = choose|k: int| 0 <= k < s.len() && s[k] == y;
            assert(s.push(x)[k] == y);
        }
        if y == x {
            assert(s.push(x)[s.len() as int] == y);
        }
        if s.push(x).contains(y) {
            let k: int = choose|k: int| 0 <= k < s.push(x).len() && s.push(x)[k] == y;
            if k < s.len() {
                assert(s[k] == y);
            }
        }
    }
    assert(s.push(x).to_set() =~= s.to_set().insert(x));
}

/// The contents of the file that the index is to be seeded for: its old
/// content, for a modified file that is not indexed yet.
pub open spec fn unindexed_old_content(idx: LineIndexView, f: commit::ParsedFileView) -> Option<
    Seq<u8>,
> {
    if f.operation == FileOperation::Modified && !idx.files.contains_key(f.path) {
        f.old_content
    } else {
        None
    }
}

/// The encoding of some content; empty content is text.
pub open spec fn known_encoding(e: Option<Encoding>) -> Encoding {
    match e {
        Some(e) => e,
        None => Encoding::Utf8,
    }
}

/// The index after it was seeded for one modified file.
pub open spec fn seeded_for_modified(
    idx: LineIndexView,
    f: commit::ParsedFileView,
    seed: Option<SeedView>,
) -> LineIndexView {
    match unindexed_old_content(idx, f) {
        Some(old) => seeded(
            idx,
            f.path,
            commit::import_lines_of(f.path, old, known_encoding(f.old_encoding)),
            seed,
            1,
        ),
        None => idx,
    }
}

/// The index once the first `n` files of a commit were looked at: each
/// modified one that it does not hold yet is seeded.
pub open spec fn seeded_for_files(
    idx: LineIndexView,
    fs: Seq<commit::ParsedFileView>,
    seeds: Seq<Option<LineIndexSeed>>,
    n: int,
) -> LineIndexView
    decreases n,
{
    if n <= 0 {
        idx
    } else {
        seeded_for_modified(
            seeded_for_files(idx, fs, seeds, n - 1),
            fs[n - 1],
            opt_seed(seeds[n - 1]),
        )
    }
}

/// One more than the commits counted for a path, or one where it is not
/// indexed.
pub open spec fn commit_hint(idx: LineIndexView, path: Seq<char>) -> u64 {
    if idx.files.contains_key(path) {
        if idx.files[path].imported_commits == u64::MAX {
            u64::MAX
        } else {
            (idx.files[path].imported_commits + 1) as u64
        }
    } else {
        1
    }
}

/// The index after one file was written in another way: what it knew of the
/// file is dropped or taken anew from the graph.
pub open spec fn reseeded(
    idx: LineIndexView,
    f: commit::ParsedFileView,
    seed: Option<SeedView>,
) -> LineIndexView {
    let kept = match f.operation {
        FileOperation::Deleted => LineIndexView { files: idx.files.remove(f.path), ..idx },
        FileOperation::Renamed => match f.old_path {
            Some(old) => LineIndexView { files: idx.files.remove(old), ..idx },
            None => idx,
        },
        _ => idx,
    };
    match f.new_content {
        Some(content) => if f.operation == FileOperation::Deleted {
            kept
        } else {
            seeded(
                kept,
                f.path,
                commit::import_lines_of(f.path, content, f.new_encoding),
                seed,
                commit_hint(kept, f.path),
            )
        },
        None => kept,
    }
}

/// The directories of an index with more anchors, each set in turn.
pub open spec fn with_anchors(
    directories: Map<Seq<char>, Position>,
    anchors: Seq<(String, ContentHash, u64)>,
) -> Map<Seq<char>, Position>
    decreases anchors.len(),
{
    if anchors.len() == 0 {
        directories
    } else {
        let a = anchors.last();
        with_anchors(directories, anchors.drop_last()).insert(
            a.0@,
            Position { change: Some(a.1), pos: a.2 },
        )
    }
}

/// The directories out of `ds` without an anchor, in their order.
pub open spec fn unanchored(directories: Map<Seq<char>, Position>, ds: Seq<Seq<char>>) -> Seq<
    Seq<char>,
>
    decreases ds.len(),
{
    if ds.len() == 0 {
        seq![]
    } else if directories.contains_key(ds.last()) {
        unanchored(directories, ds.drop_last())
    } else {
        unanchored(directories, ds.drop_last()).push(ds.last())
    }
}

/// The lines that a written change adds for a path, from one of its
/// operations: a range of its content.
pub open spec fn written_line(hash: ContentHash, contents: Seq<u8>, start: u64, end: u64) -> ImportLineView {
    ImportLineView {
        change: hash,
        start,
        end,
        incoming_by: hash,
        content: contents.subrange(start as int, end as int),
    }
}

/// Whether a range lies within the content.
pub open spec fn range_within(contents: Seq<u8>, i: graph::InsertionView) -> bool {
    i.start <= i.end <= contents.len()
}

/// Whether the ranges that the index reads from an operation lie within the
/// content of its change.
pub open spec fn op_within(contents: Seq<u8>, op: graph::GraphOpView) -> bool {
    match op {
        graph::GraphOpView::FileAdd { contents: Some(c), .. } => range_within(contents, c),
        graph::GraphOpView::Edit { change: graph::AtomView::Insertion(i), .. } => range_within(
            contents,
            i,
        ),
        _ => true,
    }
}

/// The index after one operation of a written change.
pub open spec fn after_written_op(
    idx: LineIndexView,
    hash: ContentHash,
    contents: Seq<u8>,
    op: graph::GraphOpView,
) -> LineIndexView {
    match op {
        graph::GraphOpView::FileAdd { add_inode, contents: first, path, .. } => LineIndexView {
            files: idx.files.insert(
                path,
                IndexedFileView {
                    inode_pos: Position { change: Some(hash), pos: add_inode.start },
                    lines: match first {
                        Some(c) => seq![written_line(hash, contents, c.start, c.end)],
                        None => seq![],
                    },
                    imported_commits: 1,
                },
            ),
            ..idx
        },
        graph::GraphOpView::DirAdd { add_inode, path, .. } => LineIndexView {
            directories: idx.directories.insert(
                path,
                Position { change: Some(hash), pos: add_inode.start },
            ),
            ..idx
        },
        graph::GraphOpView::Edit { change: graph::AtomView::Insertion(i), path, .. } =>
            if idx.files.contains_key(path) {
            let f = idx.files[path];
            LineIndexView {
                files: idx.files.insert(
                    path,
                    IndexedFileView {
                        lines: f.lines.push(written_line(hash, contents, i.start, i.end)),
                        ..f
                    },
                ),
                ..idx
            }
        } else {
            idx
        },
        _ => idx,
    }
}

/// The index after the operations of a written change, in turn.
pub open spec fn after_written(
    idx: LineIndexView,
    hash: ContentHash,
    contents: Seq<u8>,
    ops: Seq<graph::GraphOpView>,
) -> LineIndexView
    decreases ops.len(),
{
    if ops.len() == 0 {
        idx
    } else {
        after_written_op(
            after_written(idx, hash, contents, ops.drop_last()),
            hash,
            contents,
            ops.last(),
        )
    }
}

/// One line of a written change.
fn line_written(hash: ContentHash, contents: &Vec<u8>, start: u64, end: u64) -> (r: ImportLine)
    requires
        start <= end <= contents@.len(),
    ensures
        r@ == written_line(hash, contents@, start, end),
{
    let n: usize = contents.len();
    let content = copy_bytes(contents, start as usize, end as usize);
    ImportLine { change: hash, start, end, incoming_by: hash, content }
}

/// The indexed file of a seed.
fn file_of_seed(seed: &LineIndexSeed, contents: Vec<Vec<u8>>, hint: u64) -> (r: ImportIndexedFile)
    requires
        seed.lines@.len() == contents@.len(),
    ensures
        r@ == seeded_file(seed@, graph::byte_views(contents@), hint),
{
    let ghost cv = graph::byte_views(contents@);
    let ghost want = Seq::new(
        seed.lines@.len(),
        |i: int| seeded_line(seed.lines@[i], cv[i]),
    );
    let mut lines: Vec<ImportLine> = Vec::new();
    let mut i: usize = 0;
    assert(line_views(lines@) =~= want.take(0));
    while i < seed.lines.len()
        invariant
            i <= seed.lines@.len(),
            seed.lines@.len() == contents@.len(),
            cv == graph::byte_views(contents@),
            want == Seq::new(seed.lines@.len(), |i: int| seeded_line(seed.lines@[i], cv[i])),
            line_views(lines@) == want.take(i as int),
        decreases seed.lines@.len() - i,
    {
        let ghost before = line_views(lines@);
        let l: SeedLine = seed.lines[i];
        let line = ImportLine {
            change: l.change,
            start: l.start,
            end: l.end,
            incoming_by: l.incoming_by,
            content: clone_bytes(&contents[i]),
        };
        let ghost lv = line@;
        assert(lv == want[i as int]);
        lines.push(line);
        assert(line_views(lines@) =~= before.push(lv));
        assert(line_views(lines@) =~= want.take(i as int + 1));
        i += 1;
    }
    assert(want.take(i as int) =~= want);
    let counted: u64 = count_leading_changes(&seed.lines) as u64;
    let best: u64 = if counted >= hint {
        counted
    } else {
        hint
    };
    let r = ImportIndexedFile {
        inode_pos: Position { change: Some(seed.inode_change), pos: seed.inode_at },
        lines,
        imported_commits: if best >= 1 {
            best
        } else {
            1
        },
    };
    assert(r@ =~= seeded_file(seed@, cv, hint));
    r
}

impl ImportLineIndex {
    /// Index the files, lines and directories that a written change added.
    pub fn update_from_added_change(
        &mut self,
        hash: ContentHash,
        hunks: &Vec<GraphOp>,
        contents: &Vec<u8>,
    )
        requires
            old(self).wf(),
            forall|k: int|
                0 <= k < hunks@.len() ==> op_within(contents@, #[trigger] hunks@[k]@),
        ensures
            final(self).wf(),
            final(self)@ == after_written(
                old(self)@,
                hash,
                contents@,
                graph::op_views(hunks@),
            ),
    {
        let ghost all = graph::op_views(hunks@);
        let ghost start = self@;
        let mut i: usize = 0;
        assert(all.take(0) =~= Seq::<graph::GraphOpView>::empty());
        while i < hunks.len()
            invariant
                i <= hunks@.len(),
                self.wf(),
                all == graph::op_views(hunks@),
                forall|k: int|
                    0 <= k < hunks@.len() ==> op_within(contents@, #[trigger] hunks@[k]@),
                self@ == after_written(start, hash, contents@, all.take(i as int)),
            decreases hunks@.len() - i,
        {
            assert(all.take(i as int + 1).drop_last() =~= all.take(i as int));
            assert(all.take(i as int + 1).last() == hunks@[i as int]@);
            self.index_written_op(hash, &hunks[i], contents);
            i += 1;
        }
        assert(all.take(hunks@.len() as int) =~= all);
    }

    /// Index what one operation of a written change added.
    fn index_written_op(&mut self, hash: ContentHash, op: &GraphOp, contents: &Vec<u8>)
        requires
            old(self).wf(),
            op_within(contents@, op@),
        ensures
            final(self).wf(),
            final(self)@ == after_written_op(old(self)@, hash, contents@, op@),
    {
        let ghost before = self@;
        match op {
            GraphOp::FileAdd { add_inode, contents: first, path, .. } => {
                let mut lines: Vec<ImportLine> = Vec::new();
                if let Some(c) = first {
                    lines.push(line_written(hash, contents, c.start, c.end));
                    assert(line_views(lines@) =~= seq![
                        written_line(hash, contents@, c@.start, c@.end),
                    ]);
                } else {
                    assert(line_views(lines@) =~= Seq::<ImportLineView>::empty());
                }
                let f = ImportIndexedFile {
                    inode_pos: Position { change: Some(hash), pos: add_inode.start },
                    lines,
                    imported_commits: 1,
                };
                let ghost fv = f@;
                let ghost pv = path@;
                self.files.insert(path.clone(), f);
                assert(self@.files =~= before.files.insert(pv, fv));
            },
            GraphOp::DirAdd { add_inode, path, .. } => {
                self.directories.insert(
                    path.clone(),
                    Position { change: Some(hash), pos: add_inode.start },
                );
            },
            GraphOp::Edit { change, path, .. } => {
                if let Atom::Insertion(ins) = change {
                    let ghost pv = path@;
                    if let Some(f) = self.files.remove(path) {
                        let mut f = f;
                        assert(before.files[pv] == f@);
                        let ghost lines = line_views(f.lines@);
                        let line = line_written(hash, contents, ins.start, ins.end);
                        let ghost lv = line@;
                        f.lines.push(line);
                        assert(line_views(f.lines@) =~= lines.push(lv));
                        let ghost fv = f@;
                        self.files.insert(path.clone(), f);
                        assert(self@.files =~= before.files.insert(pv, fv));
                    } else {
                        assert(self@.files =~= before.files);
                    }
                }
            },
            GraphOp::FileMove { .. } => {},
            GraphOp::Replacement { .. } => {},
        }
    }

    /// The directories that the new files of a commit need and the index
    /// has no anchor for: outer ones first, then by name, each once.
    pub fn missing_parent_directories(&self, files: &Vec<ParsedFile>) -> (r: Vec<String>)
        requires
            self.wf(),
        ensures
            text::texts(r@) == unanchored(
                self@.directories,
                crate::graph_first::required_directories(commit::file_views(files@)),
            ),
    {
        let ds = needed_directories(files);
        let ghost all = text::texts(ds@);
        let mut out: Vec<String> = Vec::new();
        let mut i: usize = 0;
        assert(all.take(0) =~= Seq::<Seq<char>>::empty());
        assert(text::texts(out@) =~= Seq::<Seq<char>>::empty());
        while i < ds.len()
            invariant
                i <= ds@.len(),
                self.wf(),
                all == text::texts(ds@),
                text::texts(out@) == unanchored(self@.directories, all.take(i as int)),
            decreases ds@.len() - i,
        {
            assert(all.take(i as int + 1).drop_last() =~= all.take(i as int));
            assert(all.take(i as int + 1).last() == ds@[i as int]@);
            if !self.directories.contains_key(&ds[i]) {
                let ghost before = text::texts(out@);
                out.push(ds[i].clone());
                assert(text::texts(out@) =~= before.push(ds@[i as int]@));
            }
            i += 1;
        }
        assert(all.take(ds@.len() as int) =~= all);
        out
    }

    /// Take in the anchors that the repository holds for missing
    /// directories.
    pub fn seed_missing_parent_directories(&mut self, anchors: &Vec<(String, ContentHash, u64)>)
        requires
            old(self).wf(),
        ensures
            final(self).wf(),
            final(self)@ == (LineIndexView {
                directories: with_anchors(old(self)@.directories, anchors@),
                ..old(self)@
            }),
    {
        let ghost start = self@;
        let mut i: usize = 0;
        assert(anchors@.take(0) =~= Seq::<(String, ContentHash, u64)>::empty());
        while i < anchors.len()
            invariant
                i <= anchors@.len(),
                self.wf(),
                start == old(self)@,
                self@ == (LineIndexView {
                    directories: with_anchors(start.directories, anchors@.take(i as int)),
                    ..start
                }),
            decreases anchors@.len() - i,
        {
            assert(anchors@.take(i as int + 1).drop_last() =~= anchors@.take(i as int));
            self.directories.insert(
                anchors[i].0.clone(),
                Position { change: Some(anchors[i].1), pos: anchors[i].2 },
            );
            i += 1;
        }
        assert(anchors@.take(anchors@.len() as int) =~= anchors@);
    }

    /// Whether the index asks the repository for a seed before a commit that
    /// modifies this file is imported.
    pub fn asks_for_modified(&self, file: &ParsedFile) -> (r: bool)
        requires
            self.wf(),
        ensures
            r == (unindexed_old_content(self@, file@) is Some),
    {
        file.operation == FileOperation::Modified && !self.files.contains_key(&file.path)
            && file.old_content.is_some()
    }

    /// Seed the index for a modified file that it does not hold yet, with
    /// what the repository answered for its path.
    fn seed_missing_modified_file(
        &mut self,
        file: &ParsedFile,
        seed: &Option<LineIndexSeed>,
    )
        requires
            old(self).wf(),
        ensures
            final(self).wf(),
            final(self)@ == seeded_for_modified(old(self)@, file@, opt_seed(*seed)),
    {
        if !self.asks_for_modified(file) {
            return;
        }
        if let Some(old) = &file.old_content {
            let encoding = match file.old_encoding {
                Some(e) => e,
                None => Encoding::Utf8,
            };
            let contents = import_lines(&file.path, old, encoding);
            let done = self.seed_file(&file.path, contents, seed, 1);
        }
    }

    /// Seed the index for every modified file of a commit that it does not
    /// hold yet, with what the repository answered for each path.
    pub fn seed_missing_modified_files(
        &mut self,
        files: &Vec<ParsedFile>,
        seeds: &Vec<Option<LineIndexSeed>>,
    )
        requires
            old(self).wf(),
            files@.len() == seeds@.len(),
        ensures
            final(self).wf(),
            final(self)@ == seeded_for_files(
                old(self)@,
                commit::file_views(files@),
                seeds@,
                files@.len() as int,
            ),
    {
        let ghost before = self@;
        let ghost fs = commit::file_views(files@);
        let mut i: usize = 0;
        while i < files.len()
            invariant
                i <= files@.len(),
                files@.len() == seeds@.len(),
                fs == commit::file_views(files@),
                self.wf(),
                self@ == seeded_for_files(before, fs, seeds@, i as int),
            decreases files@.len() - i,
        {
            assert(fs[i as int] == files@[i as int]@);
            self.seed_missing_modified_file(&files[i], &seeds[i]);
            i += 1;
        }
    }

    /// Set the index entry of a path from its seed; `false` where the graph
    /// does not know the file, or knows another number of lines.
    fn seed_file(
        &mut self,
        path: &String,
        contents: Vec<Vec<u8>>,
        seed: &Option<LineIndexSeed>,
        hint: u64,
    ) -> (r: bool)
        requires
            old(self).wf(),
        ensures
            final(self).wf(),
            final(self)@ == seeded(
                old(self)@,
                path@,
                graph::byte_views(contents@),
                opt_seed(*seed),
                hint,
            ),
            r == (seed matches Some(s) && s.lines@.len() == contents@.len()),
    {
        assert(graph::byte_views(contents@).len() == contents@.len());
        match seed {
            None => false,
            Some(s) => {
                if s.lines.len() != contents.len() {
                    return false;
                }
                let ghost before = self@;
                let f = file_of_seed(s, contents, hint);
                let ghost fv = f@;
                let ghost pv = path@;
                self.files.insert(path.clone(), f);
                assert(self@.files =~= before.files.insert(pv, fv));
                true
            },
        }
    }

    /// Set the index entry of a path from its content and its seed; `false`
    /// where the graph does not know the file, or knows another number of
    /// lines.
    pub fn seed_file_from_graph_content(
        &mut self,
        path: &String,
        content: &[u8],
        encoding: Encoding,
        seed: &Option<LineIndexSeed>,
        imported_commits_hint: u64,
    ) -> (r: bool)
        requires
            old(self).wf(),
        ensures
            final(self).wf(),
            final(self)@ == seeded(
                old(self)@,
                path@,
                commit::import_lines_of(path@, content@, encoding),
                opt_seed(*seed),
                imported_commits_hint,
            ),
            r == (seed matches Some(s) && s.lines@.len() == commit::import_lines_of(
                path@,
                content@,
                encoding,
            ).len()),
    {
        let contents = import_lines(path, content, encoding);
        assert(graph::byte_views(contents@).len() == contents@.len());
        self.seed_file(path, contents, seed, imported_commits_hint)
    }

    /// Take one file of a commit that was written in another way anew from
    /// the graph.
    pub fn reseed_from_fallback_write(&mut self, file: &ParsedFile, seed: &Option<LineIndexSeed>)
        requires
            old(self).wf(),
        ensures
            final(self).wf(),
            final(self)@ == reseeded(old(self)@, file@, opt_seed(*seed)),
    {
        let ghost before = self@;
        if file.operation == FileOperation::Deleted {
            let gone = self.files.remove(&file.path);
            assert(self@.files =~= before.files.remove(file.path@));
            return;
        }
        if file.operation == FileOperation::Renamed {
            if let Some(old) = &file.old_path {
                let gone = self.files.remove(old);
                assert(self@.files =~= before.files.remove(old@));
            }
        }
        if let Some(content) = &file.new_content {
            let hint: u64 = match self.files.get(&file.path) {
                Some(f) => {
                    assert(self@.files[file.path@] == f@);
                    if f.imported_commits == u64::MAX {
                        u64::MAX
                    } else {
                        f.imported_commits + 1
                    }
                },
                None => 1,
            };
            let done = self.seed_file_from_graph_content(
                &file.path,
                content,
                file.new_encoding,
                seed,
                hint,
            );
        }
    }
}

} // verus!
