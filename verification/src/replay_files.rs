//! What the files of a commit become once the recorded change is replayed:
//! each file holds its content, whatever the other files did.

use crate::commit;
use crate::commit::FileOperation;
use crate::graph;
use crate::graph::{Encoding, Position};
use crate::graph_first;
use crate::graph_first::{BuildView, ReplacementKind};
use crate::line_index;
use crate::line_index::{IndexedFileView, LineIndexView};
use crate::line_units;
use crate::line_units::BlockView;
use crate::mirror;
use crate::paths;
use crate::replay;
use crate::replay::Spot;
use vstd::prelude::*;
use vstd::utf8;

verus! {

/// The lines that a file holds after a commit: none where it is deleted,
/// else those of its content.
pub open spec fn lines_after(f: commit::ParsedFileView) -> Seq<Seq<u8>> {
    if f.operation == FileOperation::Deleted {
        seq![]
    } else {
        let content = match f.new_content {
            Some(c) => c,
            None => seq![],
        };
        commit::import_lines_of(f.path, content, f.new_encoding)
    }
}

/// The path under which a file is indexed before a commit changes it.
pub open spec fn path_before(f: commit::ParsedFileView) -> Seq<char> {
    if f.operation == FileOperation::Renamed && f.old_path is Some {
        f.old_path->0
    } else {
        f.path
    }
}

/// Whether a file is known well enough to be changed: its lines have places
/// of their own, and a diff that is followed leads from them to its content.
pub open spec fn changeable(
    f: commit::ParsedFileView,
    idx: LineIndexView,
    is_merge: bool,
) -> bool {
    let indexed = idx.files[path_before(f)];
    let content = match f.new_content {
        Some(c) => c,
        None => seq![],
    };
    let by_diff = f.operation == FileOperation::Modified && !is_merge && f.new_encoding
        != Encoding::Binary && !line_units::generated_path(f.path);
    &&& replay::well_placed(indexed)
    &&& indexed.lines.len() < u64::MAX - 1
    &&& line_units::line_units(content).len() < u64::MAX - 1
    &&& by_diff && f.diff_lines is Some ==> replay::describes(
        f.diff_lines->0,
        line_index::line_contents(indexed.lines),
        line_units::line_units(content),
    )
}

/// The block between two states lies in order.
pub proof fn lemma_one_block(old: Seq<Seq<u8>>, new: Seq<Seq<u8>>)
    requires
        old.len() < u64::MAX,
        new.len() < u64::MAX,
    ensures
        mirror::in_order(line_units::state_blocks(old, new), 0, old.len()),
        replay::apart(line_units::state_blocks(old, new)),
{
    let blocks = line_units::state_blocks(old, new);
    line_units::lemma_common_prefix(old, new);
    let p = line_units::common_prefix(old, new);
    line_units::lemma_common_suffix(old.skip(p as int), new.skip(p as int));
    if blocks.len() > 0 {
        assert(blocks.drop_first() =~= seq![]);
    }
    reveal_with_fuel(mirror::in_order, 2);
}

/// The block of a whole file lies in order and leads to its content.
pub proof fn lemma_whole_block(old: Seq<Seq<u8>>, content: Seq<u8>)
    requires
        old.len() < u64::MAX,
    ensures
        ({
            let blocks = seq![graph_first::whole_block(old.len(), content)];
            &&& mirror::in_order(blocks, 0, old.len())
            &&& replay::apart(blocks)
            &&& line_units::after_blocks(old, blocks, 0) == (if content.len() == 0 {
                seq![]
            } else {
                seq![content]
            })
        }),
{
    let b = graph_first::whole_block(old.len(), content);
    let blocks = seq![b];
    assert(blocks.drop_first() =~= seq![]);
    reveal_with_fuel(mirror::in_order, 2);
    assert(old.subrange(0, 0) =~= seq![]);
    assert(old.skip(old.len() as int) =~= seq![]);
    assert(line_units::after_blocks(old, blocks.drop_first(), old.len() as int) =~= seq![]);
    assert(line_units::after_blocks(old, blocks, 0) =~= b.new_lines);
}

/// A list of blocks with the index update for it.
proof fn lemma_blocks_step(
    s: BuildView,
    file: commit::ParsedFileView,
    f: IndexedFileView,
    bs: Seq<BlockView>,
    encoding: Option<Encoding>,
    kind: ReplacementKind,
    behind: Seq<u8>,
)
    requires
        replay::well_placed(f),
        f.lines.len() < u64::MAX,
        mirror::in_order(bs, 0, f.lines.len()),
        replay::apart(bs),
        graph_first::blocks_step(s, file, f, bs, encoding, kind).contents.len() <= u64::MAX,
    ensures
        ({
            let t = graph_first::blocks_step(s, file, f, bs, encoding, kind);
            &&& t.hunks.len() >= s.hunks.len()
            &&& t.hunks.take(s.hunks.len() as int) == s.hunks
            &&& replay::replayed(
                replay::graph_of(f),
                t.hunks.skip(s.hunks.len() as int),
                f.inode_pos,
                t.contents + behind,
            ) matches Some(g) && replay::live_lines(g) == line_units::after_blocks(
                line_index::line_contents(f.lines),
                bs,
                0,
            )
        }),
{
    let t = graph_first::blocks_step(s, file, f, bs, encoding, kind);
    let u = graph_first::blocks_applied(s, file, f, bs, encoding, kind).0;
    assert(u.contents == t.contents && u.hunks == t.hunks);
    replay::recorded_blocks_lead_to_the_new_lines(
        s,
        file,
        f,
        bs,
        encoding,
        kind,
        behind,
        arbitrary(),
    );
}

/// A change of a known file is recorded right: replayed on the graph of the
/// file, what the change records for it leaves exactly the lines of the new
/// content alive, and none where the file is deleted.
pub proof fn a_changed_file_holds_its_content(
    s: BuildView,
    f: commit::ParsedFileView,
    i: usize,
    idx: LineIndexView,
    is_merge: bool,
    graph_only: bool,
    behind: Seq<u8>,
)
    requires
        !graph_first::creates(f.operation),
        idx.files.contains_key(path_before(f)),
        changeable(f, idx, is_merge),
        graph_first::file_step(s, f, i, idx, is_merge, graph_only).skips == s.skips,
        graph_first::file_step(s, f, i, idx, is_merge, graph_only).contents.len() <= u64::MAX,
    ensures
        ({
            let t = graph_first::file_step(s, f, i, idx, is_merge, graph_only);
            let indexed = idx.files[path_before(f)];
            &&& t.hunks.len() >= s.hunks.len()
            &&& t.hunks.take(s.hunks.len() as int) == s.hunks
            &&& replay::replayed(
                replay::graph_of(indexed),
                t.hunks.skip(s.hunks.len() as int),
                indexed.inode_pos,
                t.contents + behind,
            ) matches Some(g) && replay::live_lines(g) == lines_after(f)
        }),
{
    let t = graph_first::file_step(s, f, i, idx, is_merge, graph_only);
    let indexed = idx.files[path_before(f)];
    let old = line_index::line_contents(indexed.lines);
    let content = graph_first::content_or_empty(f);
    let new = line_units::line_units(content);
    let inode = indexed.inode_pos;
    let m = s.hunks.len() as int;
    let g0 = replay::graph_of(indexed);
    lemma_one_block(old, new);
    lemma_whole_block(old, content);
    line_units::state_blocks_lead_to_the_new_lines(old, new);
    if f.operation == FileOperation::Deleted {
        let op = t.hunks.last();
        assert(t.hunks.take(m) =~= s.hunks);
        assert(t.hunks.skip(m) =~= seq![op]);
        assert(seq![op].drop_last() =~= seq![]);
        reveal_with_fuel(replay::replayed, 2);
        replay::lemma_all_gone(indexed);
    } else if f.operation == FileOperation::Renamed {
        assert(f.old_path is Some) by {
            if f.old_path is None {
                assert(t.skips.len() == s.skips.len() + 1);
            }
        }
        let moved = graph_first::moved_step(s, f, f.old_path->0, indexed);
        let op = moved.hunks.last();
        let described = if !graph_only && !graph_first::in_one_piece(f) && f.diff_lines is Some {
            graph_first::with_file_ops(
                moved,
                graph_first::FileOpsView::FromDiff { path: f.path, file: i },
            )
        } else {
            moved
        };
        let blocks = if graph_first::in_one_piece(f) {
            seq![graph_first::whole_block(indexed.lines.len(), content)]
        } else {
            line_units::state_blocks(old, new)
        };
        lemma_blocks_step(
            described,
            f,
            indexed,
            blocks,
            Some(f.new_encoding),
            ReplacementKind::Rename,
            behind,
        );
        assert(t.hunks.take(m) =~= t.hunks.take(m + 1).take(m));
        assert(described.hunks.take(m) =~= s.hunks);
        assert(t.hunks[m] == t.hunks.take(m + 1)[m]);
        assert(t.hunks.skip(m) =~= seq![op] + t.hunks.skip(m + 1));
        replay::lemma_replayed_on(g0, seq![op], t.hunks.skip(m + 1), inode, t.contents + behind);
        assert(seq![op].drop_last() =~= seq![]);
        reveal_with_fuel(replay::replayed, 2);
        assert(replay::replayed(g0, seq![op], inode, t.contents + behind) == Some(g0));
    } else {
        assert(graph_first::modified_refusal(f, idx, is_merge) is None) by {
            if graph_first::modified_refusal(f, idx, is_merge) is Some {
                assert(t.skips.len() == s.skips.len() + 1);
            }
        }
        let by_diff = !graph_first::in_one_piece(f) && !is_merge;
        let described = if by_diff && !graph_only {
            graph_first::with_file_ops(
                s,
                graph_first::FileOpsView::FromDiff { path: f.path, file: i },
            )
        } else {
            s
        };
        let blocks = if graph_first::in_one_piece(f) {
            seq![graph_first::whole_block(indexed.lines.len(), content)]
        } else if is_merge {
            line_units::state_blocks(old, new)
        } else {
            line_units::diff_blocks(f.diff_lines->0)
        };
        if by_diff {
            replay::diff_blocks_lead_to_the_new_lines(f.diff_lines->0, old, new);
        }
        lemma_blocks_step(
            described,
            f,
            indexed,
            blocks,
            graph_first::text_encoding(Some(f.new_encoding)),
            ReplacementKind::Modify,
            behind,
        );
    }
}

/// Where a line ends in the content that the lines are appended to.
proof fn lemma_range_end(base: nat, ls: Seq<Seq<u8>>, i: int)
    requires
        0 <= i < ls.len(),
        base + line_units::all_bytes(ls).len() <= u64::MAX,
        forall|j: int| 0 <= j < ls.len() ==> (#[trigger] ls[j]).len() > 0,
    ensures
        graph_first::ranges_from(base, ls)[i].1 > base,
    decreases ls.len(),
{
    let head = ls.drop_last();
    mirror::lemma_ranges_len(base, head);
    assert(line_units::all_bytes(ls) == line_units::all_bytes(head) + ls.last());
    if i < head.len() {
        assert forall|j: int| 0 <= j < head.len() implies (#[trigger] head[j]).len() > 0 by {
            assert(head[j] == ls[j]);
        }
        lemma_range_end(base, head, i);
    } else {
        assert(ls[i].len() > 0);
    }
}

/// The operations of a new file.
spec fn new_file_ops(
    op: graph::GraphOpView,
    path: Seq<char>,
    ranges: Seq<(u64, u64)>,
    inode: Position,
    encoding: Option<Encoding>,
) -> Seq<graph::GraphOpView> {
    seq![op] + graph_first::chain_ops(path, ranges, inode, 1, None, encoding)
}

proof fn lemma_new_lines(
    op: graph::GraphOpView,
    path: Seq<char>,
    named: Seq<u8>,
    ls: Seq<Seq<u8>>,
    encoding: Option<Encoding>,
    behind: Seq<u8>,
    k: int,
)
    requires
        ls.len() > 0,
        1 <= k <= ls.len(),
        named.len() + line_units::all_bytes(ls).len() <= u64::MAX,
        forall|j: int| 0 <= j < ls.len() ==> (#[trigger] ls[j]).len() > 0,
        op matches graph::GraphOpView::FileAdd { contents, .. } && contents == Some(
            graph_first::line_insertion(
                graph_first::here(named.len() as u64),
                None,
                graph_first::ranges_from(named.len(), ls)[0],
                graph_first::here(named.len() as u64),
            ),
        ),
    ensures
        ({
            let inode = graph_first::here(named.len() as u64);
            let ranges = graph_first::ranges_from(named.len(), ls);
            replay::replayed(
                seq![],
                new_file_ops(op, path, ranges, inode, encoding).take(k),
                inode,
                named + line_units::all_bytes(ls) + behind,
            ) == Some(replay::fresh(inode, ranges, ls).take(k))
        }),
    decreases k,
{
    let inode = graph_first::here(named.len() as u64);
    let ranges = graph_first::ranges_from(named.len(), ls);
    let ops = new_file_ops(op, path, ranges, inode, encoding);
    let all = replay::fresh(inode, ranges, ls);
    let contents = named + line_units::all_bytes(ls) + behind;
    let i = k - 1;
    mirror::lemma_ranges_len(named.len(), ls);
    mirror::ranges_hold_their_lines(named, ls, behind, i);
    assert(ops.take(k).drop_last() =~= ops.take(i));
    assert(ops.take(k).last() == ops[i]);
    let g = all.take(i);
    assert(all.take(k) =~= g.insert(i, all[i]));
    if i == 0 {
        assert(ops.take(0) =~= seq![]);
        assert(g =~= seq![]);
    } else {
        lemma_new_lines(op, path, named, ls, encoding, behind, i);
        lemma_range_end(named.len(), ls, i - 1);
        assert(ops[i] == graph_first::chain_op(path, ranges, inode, 1, None, encoding, i));
        assert(g.last() == all[i - 1]);
        let p = graph_first::here(ranges[i - 1].1);
        assert(replay::last_ending(g, p) == Some(i - 1));
    }
}

/// Where the inode of a new file is put: behind its name.
pub open spec fn new_inode(s: BuildView, f: commit::ParsedFileView) -> Position {
    Position {
        change: None,
        pos: (s.contents.len() + utf8::encode_utf8(paths::file_name(f.path)).len()) as u64,
    }
}

/// A new file is recorded right: replayed from nothing, what the change
/// records for it hangs exactly the lines of its content behind its inode.
pub proof fn a_new_file_holds_its_content(
    s: BuildView,
    f: commit::ParsedFileView,
    i: usize,
    idx: LineIndexView,
    is_merge: bool,
    graph_only: bool,
    behind: Seq<u8>,
)
    requires
        graph_first::creates(f.operation),
        graph_first::file_step(s, f, i, idx, is_merge, graph_only).skips == s.skips,
        graph_first::file_step(s, f, i, idx, is_merge, graph_only).contents.len() <= u64::MAX,
    ensures
        ({
            let t = graph_first::file_step(s, f, i, idx, is_merge, graph_only);
            &&& t.hunks.len() >= s.hunks.len()
            &&& t.hunks.take(s.hunks.len() as int) == s.hunks
            &&& replay::replayed(
                seq![],
                t.hunks.skip(s.hunks.len() as int),
                new_inode(s, f),
                t.contents + behind,
            ) matches Some(g) && replay::live_lines(g) == lines_after(f)
        }),
{
    let t = graph_first::file_step(s, f, i, idx, is_merge, graph_only);
    assert(graph_first::anchored_parent(s.anchors, f.path) is Some) by {
        if graph_first::anchored_parent(s.anchors, f.path) is None {
            assert(t.skips.len() == s.skips.len() + 1);
        }
    }
    let named = s.contents + utf8::encode_utf8(paths::file_name(f.path));
    let content = graph_first::content_or_empty(f);
    let ls = commit::import_lines_of(f.path, content, f.new_encoding);
    let ranges = graph_first::ranges_from(named.len(), ls);
    let inode = new_inode(s, f);
    let m = s.hunks.len() as int;
    let op = t.hunks[m];
    let ops = new_file_ops(op, f.path, ranges, inode, Some(f.new_encoding));
    mirror::lemma_ranges_len(named.len(), ls);
    commit::import_lines_make_up_the_content(f.path, content, f.new_encoding);
    assert(t.contents == named + line_units::all_bytes(ls));
    assert(t.hunks.take(m) =~= s.hunks);
    assert(t.hunks.skip(m) =~= ops);
    let all = replay::fresh(inode, ranges, ls);
    replay::lemma_all_live(all);
    assert(replay::live_lines(all) =~= ls);
    if ls.len() == 0 {
        assert(ops =~= seq![op]);
        assert(ops.drop_last() =~= seq![]);
        reveal_with_fuel(replay::replayed, 2);
        replay::lemma_none_live(seq![]);
    } else {
        lemma_new_lines(op, f.path, named, ls, Some(f.new_encoding), behind, ls.len() as int);
        assert(ops.take(ls.len() as int) =~= ops);
        assert(all.take(ls.len() as int) =~= all);
    }
}

/// Whether an operation changes the lines of the file with an inode.
pub open spec fn about(op: graph::GraphOpView, inode: Position) -> bool {
    match op {
        graph::GraphOpView::Edit { change, .. } => match change {
            graph::AtomView::Insertion(i) => i.inode == inode,
            graph::AtomView::EdgeUpdate(u) => u.inode == inode,
        },
        graph::GraphOpView::Replacement { change, replacement, .. } => change.inode == inode
            || replacement.inode == inode,
        graph::GraphOpView::FileAdd { contents, .. } => contents matches Some(i) && i.inode
            == inode,
        _ => false,
    }
}

/// Operations on other files leave a file alone.
proof fn lemma_foreign(
    g: Seq<Spot>,
    ops: Seq<graph::GraphOpView>,
    inode: Position,
    contents: Seq<u8>,
)
    requires
        forall|k: int| 0 <= k < ops.len() ==> !about(#[trigger] ops[k], inode),
    ensures
        replay::replayed(g, ops, inode, contents) == Some(g),
    decreases ops.len(),
{
    if ops.len() > 0 {
        let head = ops.drop_last();
        assert forall|k: int| 0 <= k < head.len() implies !about(#[trigger] head[k], inode) by {
            assert(head[k] == ops[k]);
        }
        lemma_foreign(g, head, inode, contents);
        assert(!about(ops[ops.len() - 1], inode));
    }
}

/// Whether a builder only went on: its operations and skips begin with those
/// of an earlier one, and nothing that it added is about `q`.
pub open spec fn goes_on(s: BuildView, t: BuildView, q: Position) -> bool {
    &&& t.hunks.len() >= s.hunks.len()
    &&& t.hunks.take(s.hunks.len() as int) == s.hunks
    &&& forall|k: int| s.hunks.len() <= k < t.hunks.len() ==> !about(#[trigger] t.hunks[k], q)
    &&& t.skips.len() >= s.skips.len()
    &&& t.skips.len() == s.skips.len() ==> t.skips == s.skips
}

proof fn lemma_goes_on(s: BuildView, t: BuildView, u: BuildView, q: Position)
    requires
        goes_on(s, t, q),
        goes_on(t, u, q),
    ensures
        goes_on(s, u, q),
{
    let m = s.hunks.len() as int;
    let n = t.hunks.len() as int;
    assert(u.hunks.take(m) =~= u.hunks.take(n).take(m));
    assert forall|k: int| m <= k < u.hunks.len() implies !about(#[trigger] u.hunks[k], q) by {
        if k < n {
            assert(u.hunks.take(n)[k] == u.hunks[k]);
            assert(!about(t.hunks[k], q));
        }
    }
}

proof fn lemma_blocks_about(
    s: BuildView,
    file: commit::ParsedFileView,
    f: IndexedFileView,
    bs: Seq<BlockView>,
    encoding: Option<Encoding>,
    kind: ReplacementKind,
    q: Position,
)
    requires
        q != f.inode_pos,
    ensures
        goes_on(s, graph_first::blocks_applied(s, file, f, bs, encoding, kind).0, q),
    decreases bs.len(),
{
    assert(s.hunks.take(s.hunks.len() as int) =~= s.hunks);
    if bs.len() > 0 {
        lemma_blocks_about(s, file, f, bs.drop_last(), encoding, kind, q);
        let u = graph_first::blocks_applied(s, file, f, bs.drop_last(), encoding, kind).0;
        let t = graph_first::blocks_applied(s, file, f, bs, encoding, kind).0;
        let n = u.hunks.len() as int;
        assert(t.hunks.take(n) =~= u.hunks);
        assert(goes_on(u, t, q)) by {
            assert forall|k: int| n <= k < t.hunks.len() implies !about(#[trigger] t.hunks[k], q) by {
                assert(t.skips == u.skips);
            }
        }
        lemma_goes_on(s, u, t, q);
    }
}

/// The inode of a file of a commit.
pub open spec fn own_inode(s: BuildView, f: commit::ParsedFileView, idx: LineIndexView) -> Position {
    if graph_first::creates(f.operation) {
        new_inode(s, f)
    } else {
        idx.files[path_before(f)].inode_pos
    }
}

proof fn lemma_file_about(
    s: BuildView,
    f: commit::ParsedFileView,
    i: usize,
    idx: LineIndexView,
    is_merge: bool,
    graph_only: bool,
    q: Position,
)
    requires
        q != own_inode(s, f, idx),
    ensures
        goes_on(s, graph_first::file_step(s, f, i, idx, is_merge, graph_only), q),
{
    let t = graph_first::file_step(s, f, i, idx, is_merge, graph_only);
    let m = s.hunks.len() as int;
    assert(s.hunks.take(m) =~= s.hunks);
    let content = graph_first::content_or_empty(f);
    match f.operation {
        FileOperation::Added | FileOperation::Copied => {
            assert(t.hunks.take(m) =~= s.hunks);
        },
        FileOperation::Deleted => {
            assert(t.hunks.take(m) =~= s.hunks);
        },
        FileOperation::Renamed => {
            if f.old_path is Some && idx.files.contains_key(f.old_path->0) {
                let indexed = idx.files[f.old_path->0];
                let moved = graph_first::moved_step(s, f, f.old_path->0, indexed);
                let described = if !graph_only && !graph_first::in_one_piece(f)
                    && f.diff_lines is Some {
                    graph_first::with_file_ops(
                        moved,
                        graph_first::FileOpsView::FromDiff { path: f.path, file: i },
                    )
                } else {
                    moved
                };
                let blocks = if graph_first::in_one_piece(f) {
                    seq![graph_first::whole_block(indexed.lines.len(), content)]
                } else {
                    line_units::state_blocks(
                        line_index::line_contents(indexed.lines),
                        line_units::line_units(content),
                    )
                };
                assert(described.hunks.take(m) =~= s.hunks);
                assert(goes_on(s, described, q));
                lemma_blocks_about(
                    described,
                    f,
                    indexed,
                    blocks,
                    Some(f.new_encoding),
                    ReplacementKind::Rename,
                    q,
                );
                assert(described.hunks.take(m + 1) =~= described.hunks);
                assert(goes_on(described, t, q));
                lemma_goes_on(s, described, t, q);
            }
        },
        FileOperation::Modified => {
            if graph_first::modified_refusal(f, idx, is_merge) is None {
                let indexed = idx.files[f.path];
                let by_diff = !graph_first::in_one_piece(f) && !is_merge;
                let described = if by_diff && !graph_only {
                    graph_first::with_file_ops(
                        s,
                        graph_first::FileOpsView::FromDiff { path: f.path, file: i },
                    )
                } else {
                    s
                };
                let blocks = if graph_first::in_one_piece(f) {
                    seq![graph_first::whole_block(indexed.lines.len(), content)]
                } else if is_merge {
                    line_units::state_blocks(
                        line_index::line_contents(indexed.lines),
                        line_units::line_units(content),
                    )
                } else {
                    line_units::diff_blocks(f.diff_lines->0)
                };
                lemma_blocks_about(
                    described,
                    f,
                    indexed,
                    blocks,
                    graph_first::text_encoding(Some(f.new_encoding)),
                    ReplacementKind::Modify,
                    q,
                );
                assert(goes_on(s, t, q));
            }
        },
    }
}

/// The builder before the file `n` of a commit.
pub open spec fn built_before(
    s: BuildView,
    files: Seq<commit::ParsedFileView>,
    idx: LineIndexView,
    is_merge: bool,
    graph_only: bool,
    n: int,
) -> BuildView {
    graph_first::files_built(s, files.take(n), idx, is_merge, graph_only)
}

/// One more file is built.
pub proof fn lemma_built_next(
    s: BuildView,
    files: Seq<commit::ParsedFileView>,
    idx: LineIndexView,
    is_merge: bool,
    graph_only: bool,
    n: int,
)
    requires
        0 <= n < files.len(),
    ensures
        built_before(s, files, idx, is_merge, graph_only, n + 1) == graph_first::file_step(
            built_before(s, files, idx, is_merge, graph_only, n),
            files[n],
            n as usize,
            idx,
            is_merge,
            graph_only,
        ),
{
    assert(files.take(n + 1).drop_last() =~= files.take(n));
}

/// The files from `a` up to `b` leave the file with the inode `q` alone, and
/// only append.
proof fn lemma_files_about(
    s: BuildView,
    files: Seq<commit::ParsedFileView>,
    idx: LineIndexView,
    is_merge: bool,
    graph_only: bool,
    a: int,
    b: int,
    q: Position,
)
    requires
        0 <= a <= b <= files.len(),
        forall|n: int|
            a <= n < b ==> q != own_inode(
                #[trigger] built_before(s, files, idx, is_merge, graph_only, n),
                files[n],
                idx,
            ),
    ensures
        goes_on(
            built_before(s, files, idx, is_merge, graph_only, a),
            built_before(s, files, idx, is_merge, graph_only, b),
            q,
        ),
    decreases b - a,
{
    let sa = built_before(s, files, idx, is_merge, graph_only, a);
    if a == b {
        assert(sa.hunks.take(sa.hunks.len() as int) =~= sa.hunks);
    } else {
        lemma_files_about(s, files, idx, is_merge, graph_only, a, b - 1, q);
        lemma_built_next(s, files, idx, is_merge, graph_only, b - 1);
        let sb = built_before(s, files, idx, is_merge, graph_only, b - 1);
        lemma_file_about(sb, files[b - 1], (b - 1) as usize, idx, is_merge, graph_only, q);
        lemma_goes_on(
            sa,
            sb,
            built_before(s, files, idx, is_merge, graph_only, b),
            q,
        );
    }
}

proof fn lemma_files_append(
    s: BuildView,
    files: Seq<commit::ParsedFileView>,
    idx: LineIndexView,
    is_merge: bool,
    graph_only: bool,
    a: int,
    b: int,
)
    requires
        0 <= a <= b <= files.len(),
    ensures
        ({
            let sa = built_before(s, files, idx, is_merge, graph_only, a);
            let sb = built_before(s, files, idx, is_merge, graph_only, b);
            &&& sb.contents.len() >= sa.contents.len()
            &&& sb.contents.take(sa.contents.len() as int) == sa.contents
            &&& sb.anchors == sa.anchors
        }),
    decreases b - a,
{
    let sa = built_before(s, files, idx, is_merge, graph_only, a);
    if a == b {
        assert(sa.contents.take(sa.contents.len() as int) =~= sa.contents);
    } else {
        lemma_files_append(s, files, idx, is_merge, graph_only, a, b - 1);
        lemma_built_next(s, files, idx, is_merge, graph_only, b - 1);
        let sm = built_before(s, files, idx, is_merge, graph_only, b - 1);
        let sb = built_before(s, files, idx, is_merge, graph_only, b);
        mirror::lemma_file_appends(
            sm,
            files[b - 1],
            (b - 1) as usize,
            idx,
            is_merge,
            graph_only,
        );
        assert(sb.contents.take(sa.contents.len() as int) =~= sm.contents.take(
            sa.contents.len() as int,
        ));
    }
}

/// Directories are made by operations that are about no file.
proof fn lemma_directories_about(s: BuildView, ds: Seq<Seq<char>>, q: Position)
    ensures
        graph_first::directories_built(s, ds) matches Ok(t) ==> goes_on(s, t, q) && t.skips
            == s.skips,
    decreases ds.len(),
{
    assert(s.hunks.take(s.hunks.len() as int) =~= s.hunks);
    if ds.len() > 0 {
        lemma_directories_about(s, ds.drop_last(), q);
        if let Ok(t) = graph_first::directories_built(s, ds) {
            let u = graph_first::directories_built(s, ds.drop_last())->Ok_0;
            assert(t.hunks.take(u.hunks.len() as int) =~= u.hunks);
            assert(goes_on(u, t, q));
            lemma_goes_on(s, u, t, q);
        }
    }
}

proof fn lemma_name_bytes(name: Seq<char>)
    requires
        name.len() > 0,
    ensures
        utf8::encode_utf8(name).len() > 0,
{
    reveal_with_fuel(utf8::encode_utf8, 2);
}

/// Whether the files of a commit can be told apart: what it changes are
/// different files that are known well enough, and what it creates has a
/// name.
pub open spec fn distinct_files(
    files: Seq<commit::ParsedFileView>,
    idx: LineIndexView,
    is_merge: bool,
) -> bool {
    &&& forall|i: int|
        0 <= i < files.len() && !graph_first::creates((#[trigger] files[i]).operation)
            ==> changeable(files[i], idx, is_merge)
    &&& forall|i: int|
        0 <= i < files.len() && graph_first::creates((#[trigger] files[i]).operation)
            ==> paths::file_name(files[i].path).len() > 0
    &&& forall|i: int, j: int|
        0 <= i < j < files.len() && !graph_first::creates((#[trigger] files[i]).operation)
            && !graph_first::creates((#[trigger] files[j]).operation)
            ==> idx.files[path_before(files[i])].inode_pos != idx.files[path_before(
            files[j],
        )].inode_pos
}

proof fn lemma_other_inode(
    s: BuildView,
    files: Seq<commit::ParsedFileView>,
    idx: LineIndexView,
    is_merge: bool,
    graph_only: bool,
    i: int,
    j: int,
)
    requires
        0 <= i < j < files.len(),
        distinct_files(files, idx, is_merge),
        graph_first::files_built(s, files, idx, is_merge, graph_only).contents.len() <= u64::MAX,
    ensures
        own_inode(built_before(s, files, idx, is_merge, graph_only, i), files[i], idx) != own_inode(
            built_before(s, files, idx, is_merge, graph_only, j),
            files[j],
            idx,
        ),
{
    let si = built_before(s, files, idx, is_merge, graph_only, i);
    let sj = built_before(s, files, idx, is_merge, graph_only, j);
    let n = files.len() as int;
    assert(files.take(n) =~= files);
    lemma_built_next(s, files, idx, is_merge, graph_only, i);
    lemma_built_next(s, files, idx, is_merge, graph_only, j);
    lemma_files_append(s, files, idx, is_merge, graph_only, i + 1, j);
    lemma_files_append(s, files, idx, is_merge, graph_only, j + 1, n);
    if graph_first::creates(files[i].operation) && graph_first::creates(files[j].operation) {
        lemma_name_bytes(paths::file_name(files[j].path));
    }
}

/// A new file stands in a change: it is added under its name, and behind its
/// inode hang exactly these lines.
pub open spec fn added_with(
    built: BuildView,
    path: Seq<char>,
    lines: Seq<Seq<u8>>,
    k: int,
) -> bool {
    &&& 0 <= k < built.hunks.len()
    &&& built.hunks[k] matches graph::GraphOpView::FileAdd { add_name, add_inode, path: p, .. }
    &&& p == path
    &&& add_name.start <= add_name.end <= built.contents.len()
    &&& built.contents.subrange(add_name.start as int, add_name.end as int) == utf8::encode_utf8(
        paths::file_name(path),
    )
    &&& add_inode.inode == (Position { change: None, pos: add_name.end })
    &&& replay::replayed(
        seq![],
        built.hunks,
        add_inode.inode,
        built.contents,
    ) matches Some(g) && replay::live_lines(g) == lines
}

/// The builder once the directories of a commit are made.
pub open spec fn with_directories(files: Seq<commit::ParsedFileView>, idx: LineIndexView) -> BuildView {
    graph_first::directories_built(
        graph_first::build_start(idx.directories),
        graph_first::required_directories(files),
    )->Ok_0
}

/// What is recorded before and after one file of a commit is not about it.
pub proof fn lemma_around(
    files: Seq<commit::ParsedFileView>,
    is_merge: bool,
    idx: LineIndexView,
    graph_only: bool,
    i: int,
)
    requires
        0 <= i < files.len(),
        distinct_files(files, idx, is_merge),
        graph_first::graph_first(files, is_merge, idx, graph_only) matches Ok(built)
            && built.contents.len() <= u64::MAX,
    ensures
        ({
            let built = graph_first::graph_first(files, is_merge, idx, graph_only)->Ok_0;
            let s = with_directories(files, idx);
            let a = built_before(s, files, idx, is_merge, graph_only, i);
            let b = built_before(s, files, idx, is_merge, graph_only, i + 1);
            let q = own_inode(a, files[i], idx);
            &&& b == graph_first::file_step(a, files[i], i as usize, idx, is_merge, graph_only)
            &&& b.skips == a.skips
            &&& forall|k: int| 0 <= k < a.hunks.len() ==> !about(#[trigger] a.hunks[k], q)
            &&& goes_on(b, built, q)
            &&& built.contents.len() >= b.contents.len()
            &&& built.contents.take(b.contents.len() as int) == b.contents
        }),
{
    let start = graph_first::build_start(idx.directories);
    let ds = graph_first::required_directories(files);
    let s = with_directories(files, idx);
    let built = graph_first::files_built(s, files, idx, is_merge, graph_only);
    let f = files[i];
    let n = files.len() as int;
    let a = built_before(s, files, idx, is_merge, graph_only, i);
    let b = built_before(s, files, idx, is_merge, graph_only, i + 1);
    let q = own_inode(a, f, idx);
    assert(files.take(n) =~= files);
    assert(files.take(0) =~= seq![]);
    assert(built_before(s, files, idx, is_merge, graph_only, 0) == s);
    lemma_directories_about(start, ds, q);
    lemma_built_next(s, files, idx, is_merge, graph_only, i);
    assert forall|j: int| 0 <= j < i implies q != own_inode(
        #[trigger] built_before(s, files, idx, is_merge, graph_only, j),
        files[j],
        idx,
    ) by {
        lemma_other_inode(s, files, idx, is_merge, graph_only, j, i);
    }
    assert forall|j: int| i + 1 <= j < n implies q != own_inode(
        #[trigger] built_before(s, files, idx, is_merge, graph_only, j),
        files[j],
        idx,
    ) by {
        lemma_other_inode(s, files, idx, is_merge, graph_only, i, j);
    }
    lemma_files_about(s, files, idx, is_merge, graph_only, 0, i, q);
    lemma_files_about(s, files, idx, is_merge, graph_only, i + 1, n, q);
    lemma_files_append(s, files, idx, is_merge, graph_only, i + 1, n);
    lemma_goes_on(start, s, a, q);
    assert(start.hunks.len() == 0);
    assert(a.skips.len() <= b.skips.len()) by {
        let other = Position {
            change: None,
            pos: if q.change is None && q.pos == 0 {
                1
            } else {
                0
            },
        };
        lemma_file_about(a, f, i as usize, idx, is_merge, graph_only, other);
    }
    assert(b.skips.len() == 0 && a.skips.len() == 0);
    assert(b.skips =~= a.skips);
}

/// A file that is changed without a skip is indexed.
pub proof fn lemma_known(
    s: BuildView,
    f: commit::ParsedFileView,
    i: usize,
    idx: LineIndexView,
    is_merge: bool,
    graph_only: bool,
)
    requires
        !graph_first::creates(f.operation),
        graph_first::file_step(s, f, i, idx, is_merge, graph_only).skips == s.skips,
    ensures
        idx.files.contains_key(path_before(f)),
{
    let t = graph_first::file_step(s, f, i, idx, is_merge, graph_only);
    if !idx.files.contains_key(path_before(f)) || f.operation == FileOperation::Renamed
        && f.old_path is None {
        assert(t.skips.len() == s.skips.len() + 1);
    }
}

/// A new file is added under its name.
pub proof fn lemma_named(
    s: BuildView,
    f: commit::ParsedFileView,
    i: usize,
    idx: LineIndexView,
    is_merge: bool,
    graph_only: bool,
)
    requires
        graph_first::creates(f.operation),
        graph_first::file_step(s, f, i, idx, is_merge, graph_only).skips == s.skips,
        graph_first::file_step(s, f, i, idx, is_merge, graph_only).contents.len() <= u64::MAX,
    ensures
        ({
            let t = graph_first::file_step(s, f, i, idx, is_merge, graph_only);
            let name = utf8::encode_utf8(paths::file_name(f.path));
            let at = s.contents.len() as int;
            &&& t.hunks.len() > s.hunks.len()
            &&& t.contents.len() >= at + name.len()
            &&& t.contents.subrange(at, at + name.len()) == name
            &&& t.hunks[s.hunks.len() as int] matches graph::GraphOpView::FileAdd {
                add_name,
                add_inode,
                path,
                ..
            } && path == f.path && add_name.start == at && add_name.end == at + name.len()
                && add_inode.inode == (Position { change: None, pos: add_name.end })
                && add_inode.inode == new_inode(s, f)
        }),
{
    let t = graph_first::file_step(s, f, i, idx, is_merge, graph_only);
    let name = utf8::encode_utf8(paths::file_name(f.path));
    let at = s.contents.len() as int;
    if graph_first::anchored_parent(s.anchors, f.path) is None {
        assert(t.skips.len() == s.skips.len() + 1);
    }
    assert(t.contents.subrange(at, at + name.len()) =~= name);
}

/// What is recorded for one file decides alone what it becomes.
proof fn lemma_amid(a: BuildView, b: BuildView, c: BuildView, g: Seq<Spot>, q: Position)
    requires
        forall|k: int| 0 <= k < a.hunks.len() ==> !about(#[trigger] a.hunks[k], q),
        b.hunks.len() >= a.hunks.len(),
        b.hunks.take(a.hunks.len() as int) == a.hunks,
        goes_on(b, c, q),
    ensures
        replay::replayed(g, c.hunks, q, c.contents) == replay::replayed(
            g,
            b.hunks.skip(a.hunks.len() as int),
            q,
            c.contents,
        ),
{
    let m = a.hunks.len() as int;
    let l = b.hunks.len() as int;
    let own = b.hunks.skip(m);
    let after = c.hunks.skip(l);
    assert(b.hunks =~= b.hunks.take(m) + own);
    assert(c.hunks =~= c.hunks.take(l) + after);
    replay::lemma_replayed_on(g, b.hunks, after, q, c.contents);
    replay::lemma_replayed_on(g, a.hunks, own, q, c.contents);
    lemma_foreign(g, a.hunks, q, c.contents);
    if let Some(h) = replay::replayed(g, own, q, c.contents) {
        assert forall|k: int| 0 <= k < after.len() implies !about(#[trigger] after[k], q) by {
            assert(after[k] == c.hunks[l + k]);
        }
        lemma_foreign(h, after, q, c.contents);
    }
}

/// A commit that is imported graph-first is recorded right, file by file:
/// replayed, its change leaves in every file that it changed exactly the
/// lines of the new content, none in a file that it deleted, and adds every
/// new file under its name with the lines of its content.
#[verifier::spinoff_prover]
#[verifier::rlimit(40)]
pub proof fn a_recorded_commit_leads_to_its_files(
    files: Seq<commit::ParsedFileView>,
    is_merge: bool,
    idx: LineIndexView,
    graph_only: bool,
    i: int,
)
    requires
        0 <= i < files.len(),
        distinct_files(files, idx, is_merge),
        graph_first::graph_first(files, is_merge, idx, graph_only) matches Ok(built)
            && built.contents.len() <= u64::MAX,
    ensures
        ({
            let built = graph_first::graph_first(files, is_merge, idx, graph_only)->Ok_0;
            let f = files[i];
            if graph_first::creates(f.operation) {
                exists|k: int| #[trigger] added_with(built, f.path, lines_after(f), k)
            } else {
                let indexed = idx.files[path_before(f)];
                &&& idx.files.contains_key(path_before(f))
                &&& replay::replayed(
                    replay::graph_of(indexed),
                    built.hunks,
                    indexed.inode_pos,
                    built.contents,
                ) matches Some(g) && replay::live_lines(g) == lines_after(f)
            }
        }),
{
    lemma_around(files, is_merge, idx, graph_only, i);
    let built = graph_first::graph_first(files, is_merge, idx, graph_only)->Ok_0;
    let s = with_directories(files, idx);
    let f = files[i];
    let a = built_before(s, files, idx, is_merge, graph_only, i);
    let b = built_before(s, files, idx, is_merge, graph_only, i + 1);
    let q = own_inode(a, f, idx);
    let m = a.hunks.len() as int;
    let behind = built.contents.skip(b.contents.len() as int);
    assert(b.contents + behind =~= built.contents);
    if graph_first::creates(f.operation) {
        a_new_file_holds_its_content(a, f, i as usize, idx, is_merge, graph_only, behind);
        lemma_amid(a, b, built, seq![], q);
    } else {
        lemma_known(a, f, i as usize, idx, is_merge, graph_only);
        a_changed_file_holds_its_content(a, f, i as usize, idx, is_merge, graph_only, behind);
        lemma_amid(a, b, built, replay::graph_of(idx.files[path_before(f)]), q);
    }
    if graph_first::creates(f.operation) {
        lemma_named(a, f, i as usize, idx, is_merge, graph_only);
        let name = utf8::encode_utf8(paths::file_name(f.path));
        let at = a.contents.len() as int;
        assert(built.hunks[m] == built.hunks.take(b.hunks.len() as int)[m]);
        assert(built.contents.subrange(at, at + name.len()) =~= built.contents.take(
            b.contents.len() as int,
        ).subrange(at, at + name.len()));
        assert(added_with(built, f.path, lines_after(f), m));
    }
}

/// A new file is told line by line: each line of its content has an operation
/// of its own, numbered, behind the one before it and told apart from every
/// other, that says what the line holds and where its bytes are; graph only,
/// nothing is told.
pub proof fn a_new_file_is_told_line_by_line(
    s: BuildView,
    f: commit::ParsedFileView,
    i: usize,
    idx: LineIndexView,
    is_merge: bool,
    graph_only: bool,
    k: int,
)
    requires
        graph_first::creates(f.operation),
        f.new_encoding != Encoding::Binary,
        graph_first::file_step(s, f, i, idx, is_merge, graph_only).skips == s.skips,
        graph_first::file_step(s, f, i, idx, is_merge, graph_only).contents.len() <= u64::MAX,
        s.next_branch <= s.contents.len(),
        0 <= k < lines_after(f).len(),
    ensures
        ({
            let t = graph_first::file_step(s, f, i, idx, is_merge, graph_only);
            let line = lines_after(f)[k];
            if graph_only {
                t.file_ops == s.file_ops
            } else {
                &&& t.file_ops.len() == s.file_ops.len() + 1
                &&& t.file_ops.last() matches graph_first::FileOpsView::Created {
                    path,
                    encoding,
                    lines,
                    ..
                } && path == f.path && encoding == Some(f.new_encoding) && lines.len()
                    == lines_after(f).len() && lines[k].line == k + 1 && lines[k].after == (
                if k == 0 {
                    None
                } else {
                    Some(lines[k - 1].branch_idx)
                }) && s.next_branch <= lines[k].branch_idx < t.next_branch && (forall|j: int|
                    0 <= j < lines.len() && j != k ==> (#[trigger] lines[j]).branch_idx
                        != lines[k].branch_idx) && (lines[k].content_range matches Some(r) && r.0
                    <= r.1 <= t.contents.len() && t.contents.subrange(r.0 as int, r.1 as int)
                    == line) && (match lines[k].content {
                    Some(c) => c.len() > 0 && (line == c || line == c.push(10)),
                    None => line == seq![10u8],
                })
            }
        }),
{
    let t = graph_first::file_step(s, f, i, idx, is_merge, graph_only);
    if graph_first::anchored_parent(s.anchors, f.path) is None {
        assert(t.skips.len() == s.skips.len() + 1);
    }
    let named = s.contents + utf8::encode_utf8(paths::file_name(f.path));
    let content = graph_first::content_or_empty(f);
    let ls = commit::import_lines_of(f.path, content, f.new_encoding);
    mirror::lemma_ranges_len(named.len(), ls);
    mirror::ranges_hold_their_lines(named, ls, Seq::empty(), k);
    assert(t.contents =~= named + line_units::all_bytes(ls) + Seq::<u8>::empty());
    commit::import_lines_make_up_the_content(f.path, content, f.new_encoding);
    lemma_as_many_bytes(ls);
    let line = ls[k];
    assert(line.len() > 0);
    if line.last() == 10 {
        assert(line =~= line.drop_last().push(10));
        if line.len() == 1 {
            assert(line =~= seq![10u8]);
        }
    }
}

/// Lines that are not empty have no fewer bytes than there are lines.
proof fn lemma_as_many_bytes(ls: Seq<Seq<u8>>)
    requires
        forall|i: int| 0 <= i < ls.len() ==> (#[trigger] ls[i]).len() > 0,
    ensures
        line_units::all_bytes(ls).len() >= ls.len(),
    decreases ls.len(),
{
    if ls.len() > 0 {
        let h = ls.drop_last();
        assert forall|i: int| 0 <= i < h.len() implies (#[trigger] h[i]).len() > 0 by {
            assert(h[i] == ls[i]);
        }
        lemma_as_many_bytes(h);
        assert(ls[ls.len() - 1].len() > 0);
    }
}

/// Whether an operation makes a directory right: it is named by the last part
/// of its path, hangs on the directory above it, and its anchor is its inode.
pub open spec fn makes_directory(t: BuildView, op: graph::GraphOpView) -> bool {
    &&& op matches graph::GraphOpView::DirAdd { add_name, add_inode, path }
    &&& paths::file_name(path).len() > 0
    &&& add_name.start <= add_name.end <= t.contents.len()
    &&& t.contents.subrange(add_name.start as int, add_name.end as int) == utf8::encode_utf8(
        paths::file_name(path),
    )
    &&& add_inode.inode == (Position { change: None, pos: add_name.end })
    &&& t.anchors.contains_key(path) && t.anchors[path] == add_inode.inode
    &&& add_name.predecessors.len() == 1
    &&& add_name.predecessors[0] == (if paths::parent_path(path).len() == 0 {
        graph::root_position()
    } else {
        t.anchors[paths::parent_path(path)]
    })
    &&& paths::parent_path(path).len() > 0 ==> t.anchors.contains_key(paths::parent_path(path))
}

/// New directories are made right: each is named under its parent, which has
/// its anchor before it, none is made that has an anchor already, and all
/// anchors that were there stay.
pub proof fn new_directories_hang_on_their_parents(s: BuildView, ds: Seq<Seq<char>>)
    requires
        graph_first::directories_built(s, ds) is Ok,
        graph_first::directories_built(s, ds)->Ok_0.contents.len() <= u64::MAX,
        s.hunks.len() == 0,
    ensures
        ({
            let t = graph_first::directories_built(s, ds)->Ok_0;
            &&& forall|k: int| 0 <= k < t.hunks.len() ==> makes_directory(t, #[trigger] t.hunks[k])
            &&& forall|k: int|
                0 <= k < t.hunks.len() ==> !s.anchors.contains_key(
                    (#[trigger] t.hunks[k])->DirAdd_path,
                )
            &&& forall|d: Seq<char>| #[trigger]
                s.anchors.contains_key(d) ==> t.anchors.contains_key(d) && t.anchors[d]
                    == s.anchors[d]
        }),
    decreases ds.len(),
{
    if ds.len() > 0 {
        let u = graph_first::directories_built(s, ds.drop_last())->Ok_0;
        let t = graph_first::directories_built(s, ds)->Ok_0;
        let d = ds.last();
        assert(t.contents.len() >= u.contents.len());
        new_directories_hang_on_their_parents(s, ds.drop_last());
        if !u.anchors.contains_key(d) {
            let name = utf8::encode_utf8(paths::file_name(d));
            let n = u.contents.len() as int;
            assert(t.contents == u.contents + name);
            assert(t.contents.subrange(n, n + name.len()) =~= name);
            assert forall|k: int| 0 <= k < t.hunks.len() implies makes_directory(
                t,
                #[trigger] t.hunks[k],
            ) && !s.anchors.contains_key(t.hunks[k]->DirAdd_path) by {
                if k < u.hunks.len() {
                    assert(t.hunks[k] == u.hunks[k]);
                    assert(makes_directory(u, u.hunks[k]));
                    let w = u.hunks[k]->DirAdd_add_name;
                    assert(t.contents.subrange(w.start as int, w.end as int)
                        =~= u.contents.subrange(w.start as int, w.end as int));
                } else {
                    lemma_shorter_parent(d);
                }
            }
        }
    } else {
        assert(graph_first::directories_built(s, ds) == Ok::<BuildView, graph_first::SkipView>(s));
    }
}

/// A path with a directory above it is longer than that directory.
proof fn lemma_shorter_parent(d: Seq<char>)
    ensures
        paths::parent_path(d).len() > 0 ==> paths::parent_path(d) != d,
{
    paths::lemma_last_segment(d);
}

/// A moved file gets its new name: the change writes the name, puts it before
/// the inode that the file keeps, and deletes the name that ended at that
/// inode before.
pub proof fn a_moved_file_gets_its_new_name(
    s: BuildView,
    f: commit::ParsedFileView,
    old_path: Seq<char>,
    indexed: IndexedFileView,
    behind: Seq<u8>,
)
    requires
        graph_first::moved_step(s, f, old_path, indexed).contents.len() <= u64::MAX,
        utf8::encode_utf8(paths::file_name(old_path)).len() <= indexed.inode_pos.pos,
    ensures
        ({
            let t = graph_first::moved_step(s, f, old_path, indexed);
            let contents = t.contents + behind;
            &&& t.hunks.len() == s.hunks.len() + 1
            &&& t.hunks.take(s.hunks.len() as int) == s.hunks
            &&& t.hunks.last() matches graph::GraphOpView::FileMove { del, add, path }
            &&& path == f.path
            &&& add.start <= add.end <= contents.len()
            &&& contents.subrange(add.start as int, add.end as int) == utf8::encode_utf8(
                paths::file_name(f.path),
            )
            &&& add.successors == seq![indexed.inode_pos]
            &&& del.edges.len() == 1
            &&& del.edges[0].to.change == indexed.inode_pos.change
            &&& del.edges[0].to.end == indexed.inode_pos.pos
            &&& del.edges[0].to.end - del.edges[0].to.start == utf8::encode_utf8(
                paths::file_name(old_path),
            ).len()
            &&& del.edges[0].flag.deleted && !del.edges[0].previous.deleted
            &&& del.edges[0].flag.folder && del.edges[0].previous.folder
        }),
{
    let t = graph_first::moved_step(s, f, old_path, indexed);
    let contents = t.contents + behind;
    let name = utf8::encode_utf8(paths::file_name(f.path));
    let n = s.contents.len() as int;
    assert(contents.subrange(n, n + name.len()) =~= name);
    assert(t.hunks.take(s.hunks.len() as int) =~= s.hunks);
}

/// Whether an operation tells its path, its encoding and, where it brings a
/// line, the number of that line in the new file.
pub open spec fn tells_its_line(
    op: graph::GraphOpView,
    path: Seq<char>,
    encoding: Option<Encoding>,
    new: Seq<Seq<u8>>,
    contents: Seq<u8>,
) -> bool {
    match op {
        graph::GraphOpView::Edit { change, path: p, line, encoding: e } => {
            &&& p == path && e == encoding
            &&& change matches graph::AtomView::Insertion(i) ==> {
                &&& 1 <= line <= new.len()
                &&& i.start <= i.end <= contents.len()
                &&& contents.subrange(i.start as int, i.end as int) == new[line - 1]
            }
        },
        graph::GraphOpView::Replacement { replacement, path: p, line, encoding: e, .. } => {
            &&& p == path && e == encoding
            &&& 1 <= line <= new.len()
            &&& replacement.start <= replacement.end <= contents.len()
            &&& contents.subrange(replacement.start as int, replacement.end as int) == new[line
                - 1]
        },
        _ => false,
    }
}

proof fn lemma_told_longer(
    op: graph::GraphOpView,
    path: Seq<char>,
    encoding: Option<Encoding>,
    new: Seq<Seq<u8>>,
    contents: Seq<u8>,
    more: Seq<u8>,
)
    requires
        tells_its_line(op, path, encoding, new, contents),
    ensures
        tells_its_line(op, path, encoding, new, contents + more),
{
    match op {
        graph::GraphOpView::Edit { change, .. } => {
            if let graph::AtomView::Insertion(i) = change {
                assert((contents + more).subrange(i.start as int, i.end as int)
                    =~= contents.subrange(i.start as int, i.end as int));
            }
        },
        graph::GraphOpView::Replacement { replacement, .. } => {
            assert((contents + more).subrange(replacement.start as int, replacement.end as int)
                =~= contents.subrange(replacement.start as int, replacement.end as int));
        },
        _ => {},
    }
}

/// Operations tell their line: each operation of a changed file names its
/// path, and one that brings a line names the number that the line has in
/// the new file.
pub proof fn operations_tell_their_line(
    s: BuildView,
    file: commit::ParsedFileView,
    f: IndexedFileView,
    bs: Seq<BlockView>,
    encoding: Option<Encoding>,
    kind: ReplacementKind,
    new: Seq<Seq<u8>>,
    k: int,
)
    requires
        f.lines.len() < u64::MAX,
        new.len() < u64::MAX,
        mirror::in_order(bs, 0, f.lines.len()),
        replay::numbered_in(bs, new),
        graph_first::blocks_applied(s, file, f, bs, encoding, kind).0.contents.len() <= u64::MAX,
        s.hunks.len() <= k < graph_first::blocks_applied(
            s,
            file,
            f,
            bs,
            encoding,
            kind,
        ).0.hunks.len(),
    ensures
        ({
            let t = graph_first::blocks_applied(s, file, f, bs, encoding, kind).0;
            tells_its_line(t.hunks[k], file.path, encoding, new, t.contents)
        }),
    decreases bs.len(),
{
    if bs.len() > 0 {
        let old = line_index::line_contents(f.lines);
        let t = graph_first::blocks_applied(s, file, f, bs, encoding, kind).0;
        let front = bs.drop_last();
        let b = bs.last();
        assert(bs =~= front.push(b));
        assert(bs[bs.len() - 1] == b);
        mirror::lemma_further_block(old, front, b, 0);
        mirror::lemma_after_blocks(old, front, 0);
        mirror::lemma_placed(b, f.lines.len(), kind);
        assert(replay::numbered_in(front, new)) by {
            assert forall|i: int|
                0 <= i < front.len() && (#[trigger] front[i]).new_lines.len() > 0 implies {
                &&& 1 <= front[i].new_start
                &&& front[i].new_start - 1 + front[i].new_lines.len() <= new.len()
                &&& front[i].new_lines == new.subrange(
                    front[i].new_start - 1,
                    front[i].new_start - 1 + front[i].new_lines.len(),
                )
            } by {
                assert(front[i] == bs[i]);
            }
        }
        let u = graph_first::blocks_applied(s, file, f, front, encoding, kind).0;
        let a = mirror::block_start(b);
        let e = replay::block_end(b);
        let more = line_units::all_bytes(b.new_lines);
        assert(t == graph_first::block_applied(u, file.path, f, b, a, e, encoding));
        let m = u.hunks.len() as int;
        if k < m {
            operations_tell_their_line(s, file, f, front, encoding, kind, new, k);
            assert(t.hunks[k] == u.hunks[k]);
            lemma_told_longer(u.hunks[k], file.path, encoding, new, u.contents, more);
        } else {
            let i = k - m;
            mirror::lemma_ranges_len(u.contents.len(), b.new_lines);
            if b.new_lines.len() > 0 {
                assert(i < b.new_lines.len());
                mirror::ranges_hold_their_lines(u.contents, b.new_lines, Seq::empty(), i);
                assert(t.contents =~= u.contents + more + Seq::<u8>::empty());
                assert(b.new_lines[i] == new[b.new_start - 1 + i]);
            }
        }
    }
}

} // verus!
