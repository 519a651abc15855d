//! What a recorded change depends on: every change that its operations name.

use crate::commit;
use crate::commit::FileOperation;
use crate::graph;
use crate::graph::{ContentHash, Encoding};
use crate::graph_first;
use crate::graph_first::{BuildView, ReplacementKind};
use crate::line_index;
use crate::line_index::{ImportLineView, IndexedFileView, LineIndexView};
use crate::line_units;
use crate::line_units::BlockView;
use vstd::prelude::*;

verus! {

/// Whether a change that is named is depended on; the change itself and the
/// root need no dependency.
pub open spec fn depended(h: Option<ContentHash>, deps: Set<ContentHash>) -> bool {
    h matches Some(x) ==> x == graph::no_hash() || deps.contains(x)
}

/// Whether the changes around an insertion are depended on.
pub open spec fn insertion_depended(i: graph::InsertionView, deps: Set<ContentHash>) -> bool {
    &&& forall|k: int|
        0 <= k < i.predecessors.len() ==> depended((#[trigger] i.predecessors[k]).change, deps)
    &&& forall|k: int|
        0 <= k < i.successors.len() ==> depended((#[trigger] i.successors[k]).change, deps)
}

/// Whether the changes of the nodes and edges of an update are depended on.
pub open spec fn update_depended(u: graph::EdgeUpdateView, deps: Set<ContentHash>) -> bool {
    forall|k: int|
        0 <= k < u.edges.len() ==> depended((#[trigger] u.edges[k]).to.change, deps) && depended(
            u.edges[k].introduced_by,
            deps,
        )
}

/// Whether the changes that an operation names are depended on.
pub open spec fn op_depended(op: graph::GraphOpView, deps: Set<ContentHash>) -> bool {
    match op {
        graph::GraphOpView::DirAdd { add_name, add_inode, .. } => insertion_depended(
            add_name,
            deps,
        ) && insertion_depended(add_inode, deps),
        graph::GraphOpView::FileAdd { add_name, add_inode, contents, .. } => {
            &&& insertion_depended(add_name, deps)
            &&& insertion_depended(add_inode, deps)
            &&& contents matches Some(c) ==> insertion_depended(c, deps)
        },
        graph::GraphOpView::FileMove { del, add, .. } => update_depended(del, deps)
            && insertion_depended(add, deps),
        graph::GraphOpView::Edit { change, .. } => match change {
            graph::AtomView::Insertion(i) => insertion_depended(i, deps),
            graph::AtomView::EdgeUpdate(u) => update_depended(u, deps),
        },
        graph::GraphOpView::Replacement { change, replacement, .. } => update_depended(
            change,
            deps,
        ) && insertion_depended(replacement, deps),
    }
}

/// Whether every operation of a builder names only what is depended on.
spec fn sound(s: BuildView) -> bool {
    forall|k: int| 0 <= k < s.hunks.len() ==> op_depended(#[trigger] s.hunks[k], s.deps)
}

/// More dependencies do no harm.
proof fn lemma_more(op: graph::GraphOpView, a: Set<ContentHash>, b: Set<ContentHash>)
    requires
        op_depended(op, a),
        a.subset_of(b),
    ensures
        op_depended(op, b),
{
}

proof fn lemma_line_deps(deps: Set<ContentHash>, ls: Seq<ImportLineView>)
    ensures
        deps.subset_of(graph_first::line_deps(deps, ls)),
        forall|k: int|
            0 <= k < ls.len() ==> graph_first::line_deps(deps, ls).contains(
                (#[trigger] ls[k]).change,
            ) && graph_first::line_deps(deps, ls).contains(ls[k].incoming_by),
    decreases ls.len(),
{
    if ls.len() > 0 {
        let head = ls.drop_last();
        lemma_line_deps(deps, head);
        assert forall|k: int| 0 <= k < ls.len() implies graph_first::line_deps(deps, ls).contains(
            (#[trigger] ls[k]).change,
        ) && graph_first::line_deps(deps, ls).contains(ls[k].incoming_by) by {
            if k < head.len() {
                assert(head[k] == ls[k]);
            }
        }
    }
}

/// A builder that appended sound operations to a sound one is sound.
proof fn lemma_sound(s: BuildView, t: BuildView)
    requires
        sound(s),
        s.deps.subset_of(t.deps),
        t.hunks.len() >= s.hunks.len(),
        t.hunks.take(s.hunks.len() as int) == s.hunks,
        forall|k: int|
            s.hunks.len() <= k < t.hunks.len() ==> op_depended(#[trigger] t.hunks[k], t.deps),
    ensures
        sound(t),
{
    assert forall|k: int| 0 <= k < t.hunks.len() implies op_depended(
        #[trigger] t.hunks[k],
        t.deps,
    ) by {
        if k < s.hunks.len() {
            assert(t.hunks.take(s.hunks.len() as int)[k] == t.hunks[k]);
            lemma_more(s.hunks[k], s.deps, t.deps);
        }
    }
}

proof fn lemma_block_sound(
    s: BuildView,
    path: Seq<char>,
    f: IndexedFileView,
    b: BlockView,
    a: int,
    e: int,
    encoding: Option<Encoding>,
)
    requires
        sound(s),
        0 <= a <= e <= f.lines.len(),
    ensures
        sound(graph_first::block_applied(s, path, f, b, a, e, encoding)),
{
    let t = graph_first::block_applied(s, path, f, b, a, e, encoding);
    let before = graph_first::position_before(f, a);
    let at = graph_first::position_at(f, e);
    let s1 = graph_first::with_opt_dep(graph_first::with_dep(s, before), at);
    let gone = f.lines.subrange(a, e);
    lemma_line_deps(s1.deps, gone);
    assert(depended(before.change, t.deps));
    assert(at matches Some(p) ==> depended(p.change, t.deps));
    let m = s.hunks.len() as int;
    assert(t.hunks.take(m) =~= s.hunks);
    let edges = graph_first::deletion_edges(f, a, e);
    assert forall|k: int| 0 <= k < edges.len() implies depended(
        (#[trigger] edges[k]).to.change,
        t.deps,
    ) && depended(edges[k].introduced_by, t.deps) by {
        assert(gone[k] == f.lines[a + k]);
    }
    lemma_sound(s, t);
}

proof fn lemma_blocks_sound(
    s: BuildView,
    file: commit::ParsedFileView,
    f: IndexedFileView,
    bs: Seq<BlockView>,
    encoding: Option<Encoding>,
    kind: ReplacementKind,
)
    requires
        sound(s),
    ensures
        sound(graph_first::blocks_applied(s, file, f, bs, encoding, kind).0),
    decreases bs.len(),
{
    if bs.len() > 0 {
        lemma_blocks_sound(s, file, f, bs.drop_last(), encoding, kind);
        let u = graph_first::blocks_applied(s, file, f, bs.drop_last(), encoding, kind).0;
        if let Ok((a, e)) = graph_first::placed(bs.last(), f.lines.len(), kind) {
            lemma_block_sound(u, file.path, f, bs.last(), a, e, encoding);
        }
    }
}

proof fn lemma_file_sound(
    s: BuildView,
    f: commit::ParsedFileView,
    i: usize,
    idx: LineIndexView,
    is_merge: bool,
    graph_only: bool,
)
    requires
        sound(s),
    ensures
        sound(graph_first::file_step(s, f, i, idx, is_merge, graph_only)),
{
    let t = graph_first::file_step(s, f, i, idx, is_merge, graph_only);
    let m = s.hunks.len() as int;
    let content = graph_first::content_or_empty(f);
    match f.operation {
        FileOperation::Added | FileOperation::Copied => {
            if graph_first::anchored_parent(s.anchors, f.path) is Some {
                assert(t.hunks.take(m) =~= s.hunks);
                lemma_sound(s, t);
            }
        },
        FileOperation::Deleted => {
            if idx.files.contains_key(f.path) {
                let ls = idx.files[f.path].lines;
                lemma_line_deps(s.deps, ls);
                assert(t.hunks.take(m) =~= s.hunks);
                let edges = graph_first::deletion_edges(idx.files[f.path], 0, ls.len() as int);
                assert forall|k: int| 0 <= k < edges.len() implies depended(
                    (#[trigger] edges[k]).to.change,
                    t.deps,
                ) && depended(edges[k].introduced_by, t.deps) by {
                    assert(ls[k] == ls[0 + k]);
                }
                lemma_sound(s, t);
            }
        },
        FileOperation::Renamed => {
            if f.old_path is Some && idx.files.contains_key(f.old_path->0) {
                let indexed = idx.files[f.old_path->0];
                let moved = graph_first::moved_step(s, f, f.old_path->0, indexed);
                let described = if !graph_only && !graph_first::in_one_piece(f)
                    && f.diff_lines is Some {
                    graph_first::with_file_ops(
                        moved,
                        graph_first::FileOpsView::FromDiff { path: f.path, file: i },
                    )
                } else {
                    moved
                };
                let blocks = if graph_first::in_one_piece(f) {
                    seq![graph_first::whole_block(indexed.lines.len(), content)]
                } else {
                    line_units::state_blocks(
                        line_index::line_contents(indexed.lines),
                        line_units::line_units(content),
                    )
                };
                assert(described.hunks.take(m) =~= s.hunks);
                lemma_sound(s, described);
                lemma_blocks_sound(
                    described,
                    f,
                    indexed,
                    blocks,
                    Some(f.new_encoding),
                    ReplacementKind::Rename,
                );
            }
        },
        FileOperation::Modified => {
            if graph_first::modified_refusal(f, idx, is_merge) is None {
                let indexed = idx.files[f.path];
                let by_diff = !graph_first::in_one_piece(f) && !is_merge;
                let described = if by_diff && !graph_only {
                    graph_first::with_file_ops(
                        s,
                        graph_first::FileOpsView::FromDiff { path: f.path, file: i },
                    )
                } else {
                    s
                };
                let blocks = if graph_first::in_one_piece(f) {
                    seq![graph_first::whole_block(indexed.lines.len(), content)]
                } else if is_merge {
                    line_units::state_blocks(
                        line_index::line_contents(indexed.lines),
                        line_units::line_units(content),
                    )
                } else {
                    line_units::diff_blocks(f.diff_lines->0)
                };
                lemma_blocks_sound(
                    described,
                    f,
                    indexed,
                    blocks,
                    graph_first::text_encoding(Some(f.new_encoding)),
                    ReplacementKind::Modify,
                );
            }
        },
    }
}

proof fn lemma_files_sound(
    s: BuildView,
    files: Seq<commit::ParsedFileView>,
    idx: LineIndexView,
    is_merge: bool,
    graph_only: bool,
)
    requires
        sound(s),
    ensures
        sound(graph_first::files_built(s, files, idx, is_merge, graph_only)),
    decreases files.len(),
{
    if files.len() > 0 {
        lemma_files_sound(s, files.drop_last(), idx, is_merge, graph_only);
        let u = graph_first::files_built(s, files.drop_last(), idx, is_merge, graph_only);
        let i = (files.len() - 1) as usize;
        lemma_file_sound(u, files.last(), i, idx, is_merge, graph_only);
    }
}

proof fn lemma_directories_sound(s: BuildView, ds: Seq<Seq<char>>)
    requires
        sound(s),
    ensures
        graph_first::directories_built(s, ds) matches Ok(t) ==> sound(t),
    decreases ds.len(),
{
    if ds.len() > 0 {
        lemma_directories_sound(s, ds.drop_last());
        if let Ok(t) = graph_first::directories_built(s, ds) {
            let u = graph_first::directories_built(s, ds.drop_last())->Ok_0;
            assert(t.hunks.take(u.hunks.len() as int) =~= u.hunks);
            lemma_sound(u, t);
        }
    }
}

/// A change depends on what it names: whatever its operations delete, hang
/// something behind or put something before belongs to a change that it
/// depends on, to itself or to the root.
pub proof fn a_change_depends_on_what_it_names(
    files: Seq<commit::ParsedFileView>,
    is_merge: bool,
    idx: LineIndexView,
    graph_only: bool,
    k: int,
)
    requires
        graph_first::graph_first(files, is_merge, idx, graph_only) matches Ok(built) && 0 <= k
            < built.hunks.len(),
    ensures
        ({
            let built = graph_first::graph_first(files, is_merge, idx, graph_only)->Ok_0;
            op_depended(built.hunks[k], built.deps)
        }),
{
    let start = graph_first::build_start(idx.directories);
    let ds = graph_first::required_directories(files);
    lemma_directories_sound(start, ds);
    let s = graph_first::directories_built(start, ds)->Ok_0;
    lemma_files_sound(s, files, idx, is_merge, graph_only);
}

} // verus!
