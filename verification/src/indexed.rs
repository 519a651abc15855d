//! What the line index holds once the updates of a recorded commit are
//! applied: the lines of the files as the commit left them.

use crate::commit;
use crate::commit::FileOperation;
use crate::graph;
use crate::graph::{ContentHash, Encoding, Position};
use crate::graph_first;
use crate::graph_first::{BuildView, ReplacementKind};
use crate::line_index;
use crate::line_index::{IndexedFileView, LineIndexView, PendingView};
use crate::line_units;
use crate::line_units::BlockView;
use crate::mirror;
use crate::replay;
use crate::replay_files;
use vstd::prelude::*;

verus! {

/// Whether an update is about the file at a path.
pub open spec fn reaches(u: PendingView, path: Seq<char>) -> bool {
    match u {
        PendingView::DirectoryAdd { .. } => false,
        PendingView::Add { path: p, .. } => p == path,
        PendingView::Modify { path: p, .. } => p == path,
        PendingView::Rename { old_path, new_path } => old_path == path || new_path == path,
        PendingView::Delete { path: p } => p == path,
    }
}

/// Whether two indexes hold the same at a path.
pub open spec fn same_at(a: LineIndexView, b: LineIndexView, path: Seq<char>) -> bool {
    &&& a.files.contains_key(path) == b.files.contains_key(path)
    &&& a.files.contains_key(path) ==> a.files[path] == b.files[path]
}

proof fn lemma_updated_on(
    idx: LineIndexView,
    hash: ContentHash,
    a: Seq<PendingView>,
    b: Seq<PendingView>,
)
    ensures
        line_index::updated_all(idx, hash, a + b) == (match line_index::updated_all(
            idx,
            hash,
            a,
        ) {
            Some(i) => line_index::updated_all(i, hash, b),
            None => None,
        }),
    decreases b.len(),
{
    if b.len() == 0 {
        assert(a + b =~= a);
    } else {
        assert((a + b).drop_last() =~= a + b.drop_last());
        lemma_updated_on(idx, hash, a, b.drop_last());
    }
}

proof fn lemma_untouched(
    idx: LineIndexView,
    hash: ContentHash,
    us: Seq<PendingView>,
    path: Seq<char>,
)
    requires
        forall|k: int| 0 <= k < us.len() ==> !reaches(#[trigger] us[k], path),
    ensures
        line_index::updated_all(idx, hash, us) matches Some(out) ==> same_at(idx, out, path),
    decreases us.len(),
{
    if us.len() > 0 {
        let head = us.drop_last();
        assert forall|k: int| 0 <= k < head.len() implies !reaches(#[trigger] head[k], path) by {
            assert(head[k] == us[k]);
        }
        lemma_untouched(idx, hash, head, path);
        assert(!reaches(us[us.len() - 1], path));
    }
}

/// Whether a builder only went on: its updates begin with those of an earlier
/// one, and none that it added is about a path.
spec fn goes_on(s: BuildView, t: BuildView, path: Seq<char>) -> bool {
    &&& t.pending.len() >= s.pending.len()
    &&& t.pending.take(s.pending.len() as int) == s.pending
    &&& forall|k: int|
        s.pending.len() <= k < t.pending.len() ==> !reaches(#[trigger] t.pending[k], path)
}

proof fn lemma_goes_on(s: BuildView, t: BuildView, u: BuildView, path: Seq<char>)
    requires
        goes_on(s, t, path),
        goes_on(t, u, path),
    ensures
        goes_on(s, u, path),
{
    let m = s.pending.len() as int;
    let n = t.pending.len() as int;
    assert(u.pending.take(m) =~= u.pending.take(n).take(m));
    assert forall|k: int| m <= k < u.pending.len() implies !reaches(
        #[trigger] u.pending[k],
        path,
    ) by {
        if k < n {
            assert(u.pending.take(n)[k] == u.pending[k]);
            assert(!reaches(t.pending[k], path));
        }
    }
}

proof fn lemma_blocks_pending(
    s: BuildView,
    file: commit::ParsedFileView,
    f: IndexedFileView,
    bs: Seq<BlockView>,
    encoding: Option<Encoding>,
    kind: ReplacementKind,
)
    ensures
        graph_first::blocks_applied(s, file, f, bs, encoding, kind).0.pending == s.pending,
    decreases bs.len(),
{
    if bs.len() > 0 {
        lemma_blocks_pending(s, file, f, bs.drop_last(), encoding, kind);
    }
}

/// The blocks that a file is changed by.
spec fn blocks_of(
    f: commit::ParsedFileView,
    indexed: IndexedFileView,
    is_merge: bool,
) -> Seq<BlockView> {
    let content = graph_first::content_or_empty(f);
    if graph_first::in_one_piece(f) {
        seq![graph_first::whole_block(indexed.lines.len(), content)]
    } else if is_merge || f.operation == FileOperation::Renamed {
        line_units::state_blocks(
            line_index::line_contents(indexed.lines),
            line_units::line_units(content),
        )
    } else {
        line_units::diff_blocks(f.diff_lines->0)
    }
}

/// The updates that one file adds.
spec fn own_updates(
    s: BuildView,
    f: commit::ParsedFileView,
    i: usize,
    idx: LineIndexView,
    is_merge: bool,
    graph_only: bool,
) -> Seq<PendingView> {
    graph_first::file_step(s, f, i, idx, is_merge, graph_only).pending.skip(
        s.pending.len() as int,
    )
}

proof fn lemma_file_pending(
    s: BuildView,
    f: commit::ParsedFileView,
    i: usize,
    idx: LineIndexView,
    is_merge: bool,
    graph_only: bool,
    path: Seq<char>,
)
    requires
        path != f.path,
        path != replay_files::path_before(f),
    ensures
        goes_on(s, graph_first::file_step(s, f, i, idx, is_merge, graph_only), path),
{
    lemma_file_updates(s, f, i, idx, is_merge, graph_only);
    let t = graph_first::file_step(s, f, i, idx, is_merge, graph_only);
    let own = own_updates(s, f, i, idx, is_merge, graph_only);
    assert forall|k: int| s.pending.len() <= k < t.pending.len() implies !reaches(
        #[trigger] t.pending[k],
        path,
    ) by {
        assert(own[k - s.pending.len()] == t.pending[k]);
    }
}

/// The updates of one file are about its path, the new one and the old one.
proof fn lemma_file_updates(
    s: BuildView,
    f: commit::ParsedFileView,
    i: usize,
    idx: LineIndexView,
    is_merge: bool,
    graph_only: bool,
)
    ensures
        ({
            let t = graph_first::file_step(s, f, i, idx, is_merge, graph_only);
            let own = own_updates(s, f, i, idx, is_merge, graph_only);
            &&& t.pending.len() >= s.pending.len()
            &&& t.pending.take(s.pending.len() as int) == s.pending
            &&& forall|k: int, p: Seq<char>|
                0 <= k < own.len() && p != f.path && p != replay_files::path_before(f)
                    ==> !#[trigger] reaches(own[k], p)
        }),
{
    let t = graph_first::file_step(s, f, i, idx, is_merge, graph_only);
    let m = s.pending.len() as int;
    assert(s.pending.take(m) =~= s.pending);
    match f.operation {
        FileOperation::Added | FileOperation::Copied => {
            assert(t.pending.take(m) =~= s.pending);
        },
        FileOperation::Deleted => {
            assert(t.pending.take(m) =~= s.pending);
        },
        FileOperation::Renamed => {
            if f.old_path is Some && idx.files.contains_key(f.old_path->0) {
                let indexed = idx.files[f.old_path->0];
                let moved = graph_first::moved_step(s, f, f.old_path->0, indexed);
                let described = if !graph_only && !graph_first::in_one_piece(f)
                    && f.diff_lines is Some {
                    graph_first::with_file_ops(
                        moved,
                        graph_first::FileOpsView::FromDiff { path: f.path, file: i },
                    )
                } else {
                    moved
                };
                lemma_blocks_pending(
                    described,
                    f,
                    indexed,
                    blocks_of(f, indexed, is_merge),
                    Some(f.new_encoding),
                    ReplacementKind::Rename,
                );
                assert(t.pending.take(m) =~= s.pending);
            }
        },
        FileOperation::Modified => {
            if graph_first::modified_refusal(f, idx, is_merge) is None {
                let indexed = idx.files[f.path];
                let by_diff = !graph_first::in_one_piece(f) && !is_merge;
                let described = if by_diff && !graph_only {
                    graph_first::with_file_ops(
                        s,
                        graph_first::FileOpsView::FromDiff { path: f.path, file: i },
                    )
                } else {
                    s
                };
                lemma_blocks_pending(
                    described,
                    f,
                    indexed,
                    blocks_of(f, indexed, is_merge),
                    graph_first::text_encoding(Some(f.new_encoding)),
                    ReplacementKind::Modify,
                );
                assert(t.pending.take(m) =~= s.pending);
            }
        },
    }
}

/// The lines of a file in the index, none where it is not there.
pub open spec fn lines_at(idx: LineIndexView, path: Seq<char>) -> Seq<Seq<u8>> {
    if idx.files.contains_key(path) {
        line_index::line_contents(idx.files[path].lines)
    } else {
        seq![]
    }
}

/// Whether a file is in the index as a commit left it.
pub open spec fn holds(idx: LineIndexView, f: commit::ParsedFileView) -> bool {
    &&& idx.files.contains_key(f.path) == (f.operation != FileOperation::Deleted)
    &&& lines_at(idx, f.path) == replay_files::lines_after(f)
    &&& replay_files::path_before(f) != f.path ==> !idx.files.contains_key(
        replay_files::path_before(f),
    )
}

/// The update of one file by blocks.
proof fn lemma_blocks_indexed(
    s: BuildView,
    f: commit::ParsedFileView,
    indexed: IndexedFileView,
    bs: Seq<BlockView>,
    encoding: Option<Encoding>,
    kind: ReplacementKind,
    hash: ContentHash,
    now: LineIndexView,
)
    requires
        indexed.lines.len() < u64::MAX,
        mirror::in_order(bs, 0, indexed.lines.len()),
        now.files.contains_key(f.path),
        now.files[f.path] == indexed,
    ensures
        ({
            let t = graph_first::blocks_step(s, f, indexed, bs, encoding, kind);
            let us = t.pending.skip(s.pending.len() as int);
            line_index::updated_all(now, hash, us) matches Some(out) ==> {
                &&& out.files.contains_key(f.path)
                &&& out.files[f.path].inode_pos == indexed.inode_pos
                &&& line_index::line_contents(out.files[f.path].lines) == line_units::after_blocks(
                    line_index::line_contents(indexed.lines),
                    bs,
                    0,
                )
                &&& forall|p: Seq<char>| p != f.path ==> #[trigger] same_at(now, out, p)
            }
        }),
{
    let t = graph_first::blocks_step(s, f, indexed, bs, encoding, kind);
    let m = s.pending.len() as int;
    let us = t.pending.skip(m);
    let old = line_index::line_contents(indexed.lines);
    lemma_blocks_pending(s, f, indexed, bs, encoding, kind);
    mirror::replacements_follow_the_blocks(s, f, indexed, bs, encoding, kind, hash);
    if bs.len() == 0 {
        assert(us =~= seq![]);
        assert(old.skip(0) =~= old);
    } else {
        let u = t.pending.last();
        assert(us =~= seq![u]);
        assert(us.drop_last() =~= seq![]);
        reveal_with_fuel(line_index::updated_all, 2);
        assert(line_index::updated_all(now, hash, us) == line_index::updated(now, hash, u));
    }
}

/// The updates of one file, applied to an index that holds what the file was
/// before, leave what it is now.
proof fn lemma_file_indexed(
    s: BuildView,
    f: commit::ParsedFileView,
    i: usize,
    idx: LineIndexView,
    is_merge: bool,
    graph_only: bool,
    hash: ContentHash,
    now: LineIndexView,
)
    requires
        !graph_first::creates(f.operation) ==> replay_files::changeable(f, idx, is_merge),
        graph_first::file_step(s, f, i, idx, is_merge, graph_only).skips == s.skips,
        same_at(idx, now, replay_files::path_before(f)),
    ensures
        line_index::updated_all(
            now,
            hash,
            own_updates(s, f, i, idx, is_merge, graph_only),
        ) matches Some(out) ==> holds(out, f) && (f.operation != FileOperation::Deleted
            ==> out.files[f.path].inode_pos == (if graph_first::creates(f.operation) {
            Position { change: Some(hash), pos: replay_files::new_inode(s, f).pos }
        } else {
            idx.files[replay_files::path_before(f)].inode_pos
        })),
{
    let t = graph_first::file_step(s, f, i, idx, is_merge, graph_only);
    let us = own_updates(s, f, i, idx, is_merge, graph_only);
    let m = s.pending.len() as int;
    let content = graph_first::content_or_empty(f);
    let indexed = idx.files[replay_files::path_before(f)];
    let old = line_index::line_contents(indexed.lines);
    let new = line_units::line_units(content);
    lemma_file_updates(s, f, i, idx, is_merge, graph_only);
    if graph_first::creates(f.operation) {
        if graph_first::anchored_parent(s.anchors, f.path) is None {
            assert(t.skips.len() == s.skips.len() + 1);
        }
        let u = t.pending.last();
        assert(us =~= seq![u]);
        assert(us.drop_last() =~= seq![]);
        reveal_with_fuel(line_index::updated_all, 2);
        let ls = commit::import_lines_of(f.path, content, f.new_encoding);
        let base = s.contents + vstd::utf8::encode_utf8(crate::paths::file_name(f.path));
        mirror::lemma_ranges_len(base.len(), ls);
        let ranges = graph_first::ranges_from(base.len(), ls);
        assert(line_index::line_contents(line_index::current_lines(hash, ranges, ls)) =~= ls);
    } else if f.operation == FileOperation::Deleted {
        let u = PendingView::Delete { path: f.path };
        assert(us =~= seq![u]);
        assert(us.drop_last() =~= seq![]);
        reveal_with_fuel(line_index::updated_all, 2);
    } else {
        replay_files::lemma_known(s, f, i, idx, is_merge, graph_only);
        replay_files::lemma_one_block(old, new);
        replay_files::lemma_whole_block(old, content);
        line_units::state_blocks_lead_to_the_new_lines(old, new);
        let bs = blocks_of(f, indexed, is_merge);
        if f.operation == FileOperation::Renamed {
            if f.old_path is None {
                assert(t.skips.len() == s.skips.len() + 1);
            }
            let moved = graph_first::moved_step(s, f, f.old_path->0, indexed);
            let described = if !graph_only && !graph_first::in_one_piece(f)
                && f.diff_lines is Some {
                graph_first::with_file_ops(
                    moved,
                    graph_first::FileOpsView::FromDiff { path: f.path, file: i },
                )
            } else {
                moved
            };
            let u = PendingView::Rename { old_path: f.old_path->0, new_path: f.path };
            let next = line_index::updated(now, hash, u)->0;
            let enc = Some(f.new_encoding);
            lemma_blocks_pending(described, f, indexed, bs, enc, ReplacementKind::Rename);
            lemma_blocks_indexed(
                described,
                f,
                indexed,
                bs,
                enc,
                ReplacementKind::Rename,
                hash,
                next,
            );
            let rest = t.pending.skip(m + 1);
            assert(us =~= seq![u] + rest);
            lemma_updated_on(now, hash, seq![u], rest);
            assert(seq![u].drop_last() =~= seq![]);
            reveal_with_fuel(line_index::updated_all, 2);
            assert(line_index::updated_all(now, hash, seq![u]) == Some(next));
            if let Some(out) = line_index::updated_all(now, hash, us) {
                if f.old_path->0 != f.path {
                    assert(same_at(next, out, f.old_path->0));
                }
            }
        } else {
            if graph_first::modified_refusal(f, idx, is_merge) is Some {
                assert(t.skips.len() == s.skips.len() + 1);
            }
            let by_diff = !graph_first::in_one_piece(f) && !is_merge;
            let described = if by_diff && !graph_only {
                graph_first::with_file_ops(
                    s,
                    graph_first::FileOpsView::FromDiff { path: f.path, file: i },
                )
            } else {
                s
            };
            if by_diff {
                replay::diff_blocks_lead_to_the_new_lines(f.diff_lines->0, old, new);
            }
            lemma_blocks_indexed(
                described,
                f,
                indexed,
                bs,
                graph_first::text_encoding(Some(f.new_encoding)),
                ReplacementKind::Modify,
                hash,
                now,
            );
        }
    }
}

/// The files from `a` up to `b` leave the file at a path alone.
proof fn lemma_files_pending(
    s: BuildView,
    files: Seq<commit::ParsedFileView>,
    idx: LineIndexView,
    is_merge: bool,
    graph_only: bool,
    a: int,
    b: int,
    path: Seq<char>,
)
    requires
        0 <= a <= b <= files.len(),
        forall|n: int|
            a <= n < b ==> path != (#[trigger] files[n]).path && path != replay_files::path_before(
                files[n],
            ),
    ensures
        goes_on(
            replay_files::built_before(s, files, idx, is_merge, graph_only, a),
            replay_files::built_before(s, files, idx, is_merge, graph_only, b),
            path,
        ),
    decreases b - a,
{
    let sa = replay_files::built_before(s, files, idx, is_merge, graph_only, a);
    if a == b {
        assert(sa.pending.take(sa.pending.len() as int) =~= sa.pending);
    } else {
        lemma_files_pending(s, files, idx, is_merge, graph_only, a, b - 1, path);
        replay_files::lemma_built_next(s, files, idx, is_merge, graph_only, b - 1);
        let sm = replay_files::built_before(s, files, idx, is_merge, graph_only, b - 1);
        assert(path != files[b - 1].path);
        lemma_file_pending(sm, files[b - 1], (b - 1) as usize, idx, is_merge, graph_only, path);
        lemma_goes_on(
            sa,
            sm,
            replay_files::built_before(s, files, idx, is_merge, graph_only, b),
            path,
        );
    }
}

/// Directories are made by updates that are about no file.
proof fn lemma_directories_pending(s: BuildView, ds: Seq<Seq<char>>, path: Seq<char>)
    ensures
        graph_first::directories_built(s, ds) matches Ok(t) ==> goes_on(s, t, path),
    decreases ds.len(),
{
    assert(s.pending.take(s.pending.len() as int) =~= s.pending);
    if ds.len() > 0 {
        lemma_directories_pending(s, ds.drop_last(), path);
        if let Ok(t) = graph_first::directories_built(s, ds) {
            let u = graph_first::directories_built(s, ds.drop_last())->Ok_0;
            assert(t.pending.take(u.pending.len() as int) =~= u.pending);
            assert(goes_on(u, t, path));
            lemma_goes_on(s, u, t, path);
        }
    }
}

/// Files that a commit does not name stay in the index as they are.
pub proof fn unnamed_files_stay_indexed(
    files: Seq<commit::ParsedFileView>,
    is_merge: bool,
    idx: LineIndexView,
    graph_only: bool,
    hash: ContentHash,
    path: Seq<char>,
)
    requires
        graph_first::graph_first(files, is_merge, idx, graph_only) is Ok,
        forall|n: int|
            0 <= n < files.len() ==> path != (#[trigger] files[n]).path && path
                != replay_files::path_before(files[n]),
    ensures
        line_index::updated_all(
            idx,
            hash,
            graph_first::graph_first(files, is_merge, idx, graph_only)->Ok_0.pending,
        ) matches Some(out) ==> same_at(idx, out, path),
{
    let start = graph_first::build_start(idx.directories);
    let s = replay_files::with_directories(files, idx);
    let built = graph_first::graph_first(files, is_merge, idx, graph_only)->Ok_0;
    let n = files.len() as int;
    assert(files.take(n) =~= files);
    assert(files.take(0) =~= seq![]);
    lemma_directories_pending(start, graph_first::required_directories(files), path);
    lemma_files_pending(s, files, idx, is_merge, graph_only, 0, n, path);
    assert(replay_files::built_before(s, files, idx, is_merge, graph_only, 0) == s);
    lemma_goes_on(start, s, built, path);
    lemma_untouched(idx, hash, built.pending, path);
}

/// Whether an inode is where a change added the file at a path.
pub open spec fn added_at(built: BuildView, path: Seq<char>, pos: u64, k: int) -> bool {
    0 <= k < built.hunks.len() && (built.hunks[k] matches graph::GraphOpView::FileAdd {
        add_inode,
        path: p,
        ..
    } && p == path && add_inode.inode == (Position { change: None, pos }))
}

/// Whether no other file of a commit goes by a path of the file `i`.
pub open spec fn has_its_paths(files: Seq<commit::ParsedFileView>, i: int) -> bool {
    forall|n: int|
        0 <= n < files.len() && n != i ==> {
            &&& files[i].path != (#[trigger] files[n]).path
            &&& files[i].path != replay_files::path_before(files[n])
            &&& replay_files::path_before(files[i]) != files[n].path
            &&& replay_files::path_before(files[i]) != replay_files::path_before(files[n])
        }
}

/// The index follows a commit: once its updates are applied, the index holds
/// for every file that the commit named the lines of its content, nothing
/// for one that it deleted, and nothing under a name that a file had before;
/// a changed file keeps its inode, and a new one has that of its addition.
#[verifier::spinoff_prover]
#[verifier::rlimit(40)]
pub proof fn the_index_follows_the_commit(
    files: Seq<commit::ParsedFileView>,
    is_merge: bool,
    idx: LineIndexView,
    graph_only: bool,
    hash: ContentHash,
    i: int,
)
    requires
        0 <= i < files.len(),
        replay_files::distinct_files(files, idx, is_merge),
        has_its_paths(files, i),
        graph_first::graph_first(files, is_merge, idx, graph_only) matches Ok(built)
            && built.contents.len() <= u64::MAX,
    ensures
        line_index::updated_all(
            idx,
            hash,
            graph_first::graph_first(files, is_merge, idx, graph_only)->Ok_0.pending,
        ) matches Some(out) ==> {
            let built = graph_first::graph_first(files, is_merge, idx, graph_only)->Ok_0;
            let f = files[i];
            &&& holds(out, f)
            &&& f.operation != FileOperation::Deleted && !graph_first::creates(f.operation)
                ==> out.files[f.path].inode_pos == idx.files[replay_files::path_before(
                f,
            )].inode_pos
            &&& graph_first::creates(f.operation) ==> out.files[f.path].inode_pos.change == Some(
                hash,
            ) && exists|k: int| #[trigger]
                added_at(built, f.path, out.files[f.path].inode_pos.pos, k)
        },
{
    let start = graph_first::build_start(idx.directories);
    let s = replay_files::with_directories(files, idx);
    let built = graph_first::graph_first(files, is_merge, idx, graph_only)->Ok_0;
    let f = files[i];
    let old = replay_files::path_before(f);
    let n = files.len() as int;
    let a = replay_files::built_before(s, files, idx, is_merge, graph_only, i);
    let b = replay_files::built_before(s, files, idx, is_merge, graph_only, i + 1);
    assert(files.take(n) =~= files);
    assert(files.take(0) =~= seq![]);
    assert(replay_files::built_before(s, files, idx, is_merge, graph_only, 0) == s);
    lemma_directories_pending(start, graph_first::required_directories(files), old);
    lemma_files_pending(s, files, idx, is_merge, graph_only, 0, i, old);
    lemma_goes_on(start, s, a, old);
    lemma_files_pending(s, files, idx, is_merge, graph_only, i + 1, n, f.path);
    lemma_files_pending(s, files, idx, is_merge, graph_only, i + 1, n, old);
    replay_files::lemma_around(files, is_merge, idx, graph_only, i);
    lemma_file_updates(a, f, i as usize, idx, is_merge, graph_only);
    let own = own_updates(a, f, i as usize, idx, is_merge, graph_only);
    let after = built.pending.skip(b.pending.len() as int);
    assert(b.pending =~= a.pending + own);
    assert(built.pending =~= b.pending + after);
    lemma_updated_on(idx, hash, b.pending, after);
    lemma_updated_on(idx, hash, a.pending, own);
    lemma_untouched(idx, hash, a.pending, old);
    if let Some(out) = line_index::updated_all(idx, hash, built.pending) {
        let now = line_index::updated_all(idx, hash, a.pending)->0;
        let next = line_index::updated_all(now, hash, own)->0;
        lemma_file_indexed(a, f, i as usize, idx, is_merge, graph_only, hash, now);
        assert forall|k: int| 0 <= k < after.len() implies !reaches(
            #[trigger] after[k],
            f.path,
        ) && !reaches(after[k], old) by {
            assert(after[k] == built.pending[b.pending.len() + k]);
        }
        lemma_untouched(next, hash, after, f.path);
        lemma_untouched(next, hash, after, old);
        if graph_first::creates(f.operation) {
            replay_files::lemma_named(a, f, i as usize, idx, is_merge, graph_only);
            let m = a.hunks.len() as int;
            assert(built.hunks[m] == built.hunks.take(b.hunks.len() as int)[m]);
            assert(added_at(built, f.path, out.files[f.path].inode_pos.pos, m));
        }
    }
}

/// Seeding fills a gap and nothing else: a modified file that the index does
/// not hold is indexed with the lines of its old content, each at the place
/// that the graph knows; whatever the index holds already stays.
pub proof fn seeding_fills_only_gaps(
    idx: LineIndexView,
    f: commit::ParsedFileView,
    seed: Option<line_index::SeedView>,
    path: Seq<char>,
    k: int,
)
    requires
        seed matches Some(s) ==> s.lines.len() <= u64::MAX,
    ensures
        ({
            let after = line_index::seeded_for_modified(idx, f, seed);
            let old = commit::import_lines_of(
                f.path,
                f.old_content->0,
                match f.old_encoding {
                    Some(e) => e,
                    None => Encoding::Utf8,
                },
            );
            let fills = f.operation == FileOperation::Modified && !idx.files.contains_key(f.path)
                && f.old_content is Some && seed is Some && seed->0.lines.len() == old.len();
            &&& idx.files.contains_key(path) || path != f.path ==> same_at(idx, after, path)
            &&& !fills ==> after == idx
            &&& fills ==> {
                &&& after.files.contains_key(f.path)
                &&& line_index::line_contents(after.files[f.path].lines) == old
                &&& after.files[f.path].imported_commits >= 1
                &&& after.files[f.path].inode_pos.change == Some(seed->0.inode_change)
                &&& after.files[f.path].inode_pos.pos == seed->0.inode_at
                &&& 0 <= k < old.len() ==> {
                    let l = after.files[f.path].lines[k];
                    let s = seed->0.lines[k];
                    l.change == s.change && l.start == s.start && l.end == s.end
                        && l.incoming_by == s.incoming_by
                }
            }
        }),
{
    let after = line_index::seeded_for_modified(idx, f, seed);
    if after.files.contains_key(f.path) && f.old_content is Some && seed is Some {
        let old = commit::import_lines_of(
            f.path,
            f.old_content->0,
            line_index::known_encoding(f.old_encoding),
        );
        if seed->0.lines.len() == old.len() && !idx.files.contains_key(f.path) && f.operation
            == FileOperation::Modified {
            let file = line_index::seeded_file(seed->0, old, 1);
            assert(line_index::line_contents(file.lines) =~= old);
            lemma_counted_changes(seed->0.lines);
        }
    }
}

/// The changes that led to some lines are no more than the lines.
proof fn lemma_counted_changes(ls: Seq<line_index::SeedLine>)
    ensures
        line_index::leading_changes(ls).len() <= ls.len(),
{
    let all = ls.map_values(|l: line_index::SeedLine| l.incoming_by);
    all.lemma_cardinality_of_set();
}

/// A file that was written in another way is known again: after it the index
/// holds the lines of its content where the graph knows as many, nothing for
/// a deleted file, and nothing under a name that the file had before.
pub proof fn a_rewritten_file_is_known_again(
    idx: LineIndexView,
    f: commit::ParsedFileView,
    seed: line_index::SeedView,
)
    requires
        f.operation != FileOperation::Deleted ==> f.new_content is Some && seed.lines.len()
            == replay_files::lines_after(f).len(),
        f.operation == FileOperation::Renamed ==> f.old_path is Some,
    ensures
        holds(line_index::reseeded(idx, f, Some(seed)), f),
{
    let after = line_index::reseeded(idx, f, Some(seed));
    if f.operation != FileOperation::Deleted {
        assert(line_index::line_contents(after.files[f.path].lines)
            =~= replay_files::lines_after(f));
    }
}

/// The directories that are asked for are those without an anchor.
pub proof fn only_unanchored_directories_are_asked_for(
    directories: Map<Seq<char>, Position>,
    ds: Seq<Seq<char>>,
    d: Seq<char>,
)
    ensures
        line_index::unanchored(directories, ds).contains(d) <==> ds.contains(d)
            && !directories.contains_key(d),
    decreases ds.len(),
{
    let all = line_index::unanchored(directories, ds);
    if ds.len() == 0 {
        assert(all.len() == 0);
    } else {
        let h = ds.drop_last();
        let head = line_index::unanchored(directories, h);
        only_unanchored_directories_are_asked_for(directories, h, d);
        if all.contains(d) {
            let j = choose|j: int| 0 <= j < all.len() && all[j] == d;
            if j < head.len() {
                assert(head[j] == d);
                assert(head.contains(d));
                let i = choose|i: int| 0 <= i < h.len() && h[i] == d;
                assert(ds[i] == d);
            } else {
                assert(ds[ds.len() - 1] == d);
            }
        }
        if ds.contains(d) && !directories.contains_key(d) {
            let i = choose|i: int| 0 <= i < ds.len() && ds[i] == d;
            if i < h.len() {
                assert(h[i] == d);
                assert(h.contains(d));
                let j = choose|j: int| 0 <= j < head.len() && head[j] == d;
                assert(all[j] == d);
            } else {
                assert(all[head.len() as int] == d);
            }
        }
    }
}

proof fn lemma_written_lines(
    idx: LineIndexView,
    hash: ContentHash,
    contents: Seq<u8>,
    ops: Seq<graph::GraphOpView>,
    path: Seq<char>,
    inode: Position,
    ranges: Seq<(u64, u64)>,
    ls: Seq<Seq<u8>>,
    encoding: Option<Encoding>,
    k: int,
)
    requires
        1 <= k <= ops.len(),
        ls.len() == ranges.len(),
        ops.len() == (if ranges.len() == 0 {
            1
        } else {
            ranges.len()
        }),
        ops[0] matches graph::GraphOpView::FileAdd { add_inode, contents: c, path: p, .. }
            && p == path && add_inode.start == inode.pos && c == (if ranges.len() > 0 {
            Some(graph_first::line_insertion(inode, None, ranges[0], inode))
        } else {
            None
        }),
        forall|i: int|
            1 <= i < ops.len() ==> #[trigger] ops[i] == graph_first::chain_op(
                path,
                ranges,
                inode,
                1,
                None,
                encoding,
                i,
            ),
        forall|i: int|
            0 <= i < ls.len() ==> contents.subrange(
                ranges[i].0 as int,
                ranges[i].1 as int,
            ) == #[trigger] ls[i],
    ensures
        ({
            let out = line_index::after_written(idx, hash, contents, ops.take(k));
            &&& out.files.contains_key(path)
            &&& out.files[path].inode_pos == (Position {
                change: Some(hash),
                pos: inode.pos,
            })
            &&& out.files[path].imported_commits == 1
            &&& out.files[path].lines == line_index::current_lines(hash, ranges, ls).take(
                if ranges.len() == 0 {
                    0
                } else {
                    k
                },
            )
        }),
    decreases k,
{
    let all = line_index::current_lines(hash, ranges, ls);
    let out = line_index::after_written(idx, hash, contents, ops.take(k));
    assert(ops.take(k).drop_last() =~= ops.take(k - 1));
    assert(ops.take(k).last() == ops[k - 1]);
    if k == 1 {
        assert(ops.take(0) =~= seq![]);
        if ranges.len() > 0 {
            assert(ls[0] == ls[0]);
            assert(out.files[path].lines =~= all.take(1));
        } else {
            assert(out.files[path].lines =~= all.take(0));
        }
    } else {
        lemma_written_lines(
            idx,
            hash,
            contents,
            ops,
            path,
            inode,
            ranges,
            ls,
            encoding,
            k - 1,
        );
        assert(ops[k - 1] == graph_first::chain_op(
            path,
            ranges,
            inode,
            1,
            None,
            encoding,
            k - 1,
        ));
        assert(ls[k - 1] == ls[k - 1]);
        assert(out.files[path].lines =~= all.take(k - 1).push(all[k - 1]));
        assert(all.take(k) =~= all.take(k - 1).push(all[k - 1]));
    }
}

/// A new file is indexed alike both ways: from the update that was kept for
/// it and from the operations that were written for it.
pub proof fn both_ways_index_a_new_file_alike(
    s: BuildView,
    f: commit::ParsedFileView,
    i: usize,
    idx: LineIndexView,
    is_merge: bool,
    graph_only: bool,
    hash: ContentHash,
    behind: Seq<u8>,
    now: LineIndexView,
)
    requires
        graph_first::creates(f.operation),
        graph_first::file_step(s, f, i, idx, is_merge, graph_only).skips == s.skips,
        graph_first::file_step(s, f, i, idx, is_merge, graph_only).contents.len() <= u64::MAX,
    ensures
        ({
            let t = graph_first::file_step(s, f, i, idx, is_merge, graph_only);
            let by_update = line_index::updated_all(
                now,
                hash,
                t.pending.skip(s.pending.len() as int),
            );
            let by_ops = line_index::after_written(
                now,
                hash,
                t.contents + behind,
                t.hunks.skip(s.hunks.len() as int),
            );
            &&& by_update is Some
            &&& by_update->0.files.contains_key(f.path)
            &&& by_ops.files.contains_key(f.path)
            &&& by_update->0.files[f.path] == by_ops.files[f.path]
        }),
{
    let t = graph_first::file_step(s, f, i, idx, is_merge, graph_only);
    if graph_first::anchored_parent(s.anchors, f.path) is None {
        assert(t.skips.len() == s.skips.len() + 1);
    }
    let named = s.contents + vstd::utf8::encode_utf8(crate::paths::file_name(f.path));
    let content = graph_first::content_or_empty(f);
    let ls = commit::import_lines_of(f.path, content, f.new_encoding);
    let ranges = graph_first::ranges_from(named.len(), ls);
    let inode = replay_files::new_inode(s, f);
    let contents = t.contents + behind;
    let m = s.hunks.len() as int;
    let ops = t.hunks.skip(m);
    mirror::lemma_ranges_len(named.len(), ls);
    assert forall|k: int| 0 <= k < ls.len() implies contents.subrange(
        ranges[k].0 as int,
        ranges[k].1 as int,
    ) == #[trigger] ls[k] by {
        mirror::ranges_hold_their_lines(named, ls, behind, k);
    }
    assert(ops[0] == t.hunks[m]);
    assert forall|k: int| 1 <= k < ops.len() implies #[trigger] ops[k] == graph_first::chain_op(
        f.path,
        ranges,
        inode,
        1,
        None,
        Some(f.new_encoding),
        k,
    ) by {
        assert(ops[k] == t.hunks[m + k]);
    }
    lemma_written_lines(
        now,
        hash,
        contents,
        ops,
        f.path,
        inode,
        ranges,
        ls,
        Some(f.new_encoding),
        ops.len() as int,
    );
    assert(ops.take(ops.len() as int) =~= ops);
    let all = line_index::current_lines(hash, ranges, ls);
    assert(all.take(all.len() as int) =~= all);
    let us = t.pending.skip(s.pending.len() as int);
    assert(us =~= seq![t.pending.last()]);
    assert(us.drop_last() =~= seq![]);
    reveal_with_fuel(line_index::updated_all, 2);
}

} // verus!
