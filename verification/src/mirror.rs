//! The line index mirrors what was imported, and the positions that are
//! written hold what they stand for.
use crate::commit;
use crate::commit::FileOperation;
use crate::graph::{ContentHash, Encoding, Position};
use crate::graph_first;
use crate::graph_first::{BuildView, ReplacementKind};
use crate::line_index;
use crate::line_index::{ImportLineView, IndexedFileView, PendingReplacementView};
use crate::line_units;
use crate::line_units::BlockView;
use crate::paths;
use vstd::prelude::*;

verus! {

/// The number of lines before a block.
pub open spec fn block_start(b: BlockView) -> int {
    if b.old_len == 0 {
        b.old_start as int
    } else {
        b.old_start - 1
    }
}

/// Whether blocks lie in order, from the line `done` on, among `n` lines.
pub open spec fn in_order(bs: Seq<BlockView>, done: int, n: nat) -> bool
    decreases bs.len(),
{
    if bs.len() == 0 {
        0 <= done <= n
    } else {
        &&& 0 <= done <= block_start(bs[0])
        &&& block_start(bs[0]) + bs[0].old_len <= n
        &&& in_order(bs.drop_first(), block_start(bs[0]) + bs[0].old_len, n)
    }
}

/// One past the last old line that the blocks reach.
pub open spec fn reached(bs: Seq<BlockView>, done: int) -> int
    decreases bs.len(),
{
    if bs.len() == 0 {
        done
    } else {
        reached(bs.drop_first(), block_start(bs[0]) + bs[0].old_len)
    }
}

/// The lines up to the last that the blocks bring.
pub open spec fn rewritten(old: Seq<Seq<u8>>, bs: Seq<BlockView>, done: int) -> Seq<Seq<u8>>
    decreases bs.len(),
{
    if bs.len() == 0 {
        seq![]
    } else {
        old.subrange(done, block_start(bs[0])) + bs[0].new_lines + rewritten(
            old,
            bs.drop_first(),
            block_start(bs[0]) + bs[0].old_len,
        )
    }
}

/// What the blocks bring, and the old lines behind them.
pub proof fn lemma_after_blocks(old: Seq<Seq<u8>>, bs: Seq<BlockView>, done: int)
    requires
        in_order(bs, done, old.len()),
    ensures
        done <= reached(bs, done) <= old.len(),
        line_units::after_blocks(old, bs, done) == rewritten(old, bs, done) + old.skip(
            reached(bs, done),
        ),
    decreases bs.len(),
{
    if bs.len() == 0 {
        assert(rewritten(old, bs, done) + old.skip(done) =~= old.skip(done));
    } else {
        let end = block_start(bs[0]) + bs[0].old_len;
        lemma_after_blocks(old, bs.drop_first(), end);
        let head = old.subrange(done, block_start(bs[0])) + bs[0].new_lines;
        let tail = rewritten(old, bs.drop_first(), end);
        let rest = old.skip(reached(bs.drop_first(), end));
        assert(head + (tail + rest) =~= (head + tail) + rest);
    }
}

/// What a further block adds.
pub proof fn lemma_further_block(old: Seq<Seq<u8>>, bs: Seq<BlockView>, b: BlockView, done: int)
    requires
        in_order(bs.push(b), done, old.len()),
    ensures
        in_order(bs, done, old.len()),
        reached(bs, done) <= block_start(b),
        block_start(b) + b.old_len <= old.len(),
        reached(bs.push(b), done) == block_start(b) + b.old_len,
        rewritten(old, bs.push(b), done) == rewritten(old, bs, done) + old.subrange(
            reached(bs, done),
            block_start(b),
        ) + b.new_lines,
    decreases bs.len(),
{
    let all = bs.push(b);
    if bs.len() == 0 {
        assert(all[0] == b);
        assert(all.drop_first() =~= seq![]);
        reveal_with_fuel(reached, 2);
        assert(rewritten(old, all.drop_first(), block_start(b) + b.old_len) =~= seq![]);
        assert(rewritten(old, all, done) =~= rewritten(old, bs, done) + old.subrange(
            done,
            block_start(b),
        ) + b.new_lines);
    } else {
        assert(all[0] == bs[0]);
        assert(all.drop_first() =~= bs.drop_first().push(b));
        let end = block_start(bs[0]) + bs[0].old_len;
        lemma_further_block(old, bs.drop_first(), b, end);
        let head = old.subrange(done, block_start(bs[0])) + bs[0].new_lines;
        let tail = rewritten(old, bs.drop_first(), end);
        let more = old.subrange(reached(bs.drop_first(), end), block_start(b));
        assert(head + (tail + more + b.new_lines) =~= (head + tail) + more + b.new_lines);
    }
}

/// Every line has a range.
pub proof fn lemma_ranges_len(base: nat, ls: Seq<Seq<u8>>)
    ensures
        graph_first::ranges_from(base, ls).len() == ls.len(),
    decreases ls.len(),
{
    if ls.len() > 0 {
        lemma_ranges_len(base, ls.drop_last());
    }
}

/// A block that lies among the lines is placed where it lies.
pub proof fn lemma_placed(b: BlockView, n: nat, kind: ReplacementKind)
    requires
        0 <= block_start(b),
        block_start(b) + b.old_len <= n,
        n < u64::MAX,
    ensures
        graph_first::placed(b, n, kind) == Ok::<(int, int), graph_first::SkipReason>(
            (block_start(b), block_start(b) + b.old_len),
        ),
{
}

/// The replacements of blocks that lie in order, made in turn with every
/// earlier shift taken into account, lead to the lines that the blocks say.
pub proof fn replacements_follow_the_blocks(
    s: BuildView,
    file: commit::ParsedFileView,
    f: IndexedFileView,
    bs: Seq<BlockView>,
    encoding: Option<Encoding>,
    kind: ReplacementKind,
    hash: ContentHash,
)
    requires
        in_order(bs, 0, f.lines.len()),
        f.lines.len() < u64::MAX,
    ensures
        ({
            let reps = graph_first::blocks_applied(s, file, f, bs, encoding, kind).1;
            let old = line_index::line_contents(f.lines);
            &&& reps.len() == bs.len()
            &&& line_index::replaced_lines(f.lines, hash, reps) matches Some(ls)
                && line_index::line_contents(ls) == line_units::after_blocks(old, bs, 0)
        }),
{
    let old = line_index::line_contents(f.lines);
    lemma_replaced(s, file, f, bs, encoding, kind, hash);
    lemma_after_blocks(old, bs, 0);
}

/// One replacement behind what is already rewritten.
proof fn lemma_spliced(
    ls: Seq<ImportLineView>,
    hash: ContentHash,
    r: PendingReplacementView,
    shift: int,
    head: Seq<Seq<u8>>,
    old: Seq<Seq<u8>>,
    done: int,
)
    requires
        line_index::line_contents(ls) == head + old.skip(done),
        0 <= done <= r.start_idx,
        r.start_idx + r.old_len <= old.len(),
        head.len() == done + shift,
        r.new_ranges.len() == r.new_lines.len(),
    ensures
        line_index::spliced(ls, hash, r, shift) matches Some(fin) && line_index::line_contents(fin)
            == head + old.subrange(done, r.start_idx as int) + r.new_lines + old.skip(
            r.start_idx + r.old_len,
        ),
{
    let a = r.start_idx as int;
    let e = a + r.old_len;
    let lc = line_index::line_contents(ls);
    assert(lc.len() == ls.len());
    let x = line_index::shifted_start(r.start_idx, shift);
    assert(x == a + shift);
    assert(x <= ls.len());
    let y = line_index::shifted_end(x, r.old_len, ls.len());
    assert(y == x + r.old_len);
    let new = line_index::current_lines(hash, r.new_ranges, r.new_lines);
    let out = ls.take(x) + new + ls.skip(y);
    assert(line_index::line_contents(new) =~= r.new_lines);
    assert(line_index::line_contents(ls.take(x)) =~= lc.take(x));
    assert(line_index::line_contents(ls.skip(y)) =~= lc.skip(y));
    assert(lc.take(x) =~= head + old.subrange(done, a));
    assert(lc.skip(y) =~= old.skip(e));
    assert(line_index::line_contents(out) =~= lc.take(x) + r.new_lines + lc.skip(y));
    let fin = line_index::spliced(ls, hash, r, shift)->0;
    assert(line_index::line_contents(fin) =~= line_index::line_contents(out));
}

proof fn lemma_replaced(
    s: BuildView,
    file: commit::ParsedFileView,
    f: IndexedFileView,
    bs: Seq<BlockView>,
    encoding: Option<Encoding>,
    kind: ReplacementKind,
    hash: ContentHash,
)
    requires
        in_order(bs, 0, f.lines.len()),
        f.lines.len() < u64::MAX,
    ensures
        ({
            let reps = graph_first::blocks_applied(s, file, f, bs, encoding, kind).1;
            let old = line_index::line_contents(f.lines);
            let done = reached(bs, 0);
            let head = rewritten(old, bs, 0);
            &&& reps.len() == bs.len()
            &&& 0 <= done <= old.len()
            &&& head.len() == done + line_index::shift_of(reps)
            &&& line_index::replaced_lines(f.lines, hash, reps) matches Some(ls)
                && line_index::line_contents(ls) == head + old.skip(done)
        }),
    decreases bs.len(),
{
    let old = line_index::line_contents(f.lines);
    let reps = graph_first::blocks_applied(s, file, f, bs, encoding, kind).1;
    lemma_after_blocks(old, bs, 0);
    if bs.len() == 0 {
        assert(rewritten(old, bs, 0) + old.skip(0) =~= old);
    } else {
        let before = bs.drop_last();
        let b = bs.last();
        assert(bs =~= before.push(b));
        lemma_further_block(old, before, b, 0);
        lemma_replaced(s, file, f, before, encoding, kind, hash);
        lemma_after_blocks(old, before, 0);
        lemma_placed(b, f.lines.len(), kind);
        let (s1, p1) = graph_first::blocks_applied(s, file, f, before, encoding, kind);
        let a = block_start(b);
        let e = a + b.old_len;
        let r = graph_first::block_pending(s1, f, b, a, e);
        assert(reps == p1.push(r));
        assert(reps.drop_last() =~= p1);
        lemma_ranges_len(s1.contents.len(), b.new_lines);
        let done = reached(before, 0);
        let head = rewritten(old, before, 0);
        let shift = line_index::shift_of(p1);
        let ls = line_index::replaced_lines(f.lines, hash, p1)->0;
        lemma_spliced(ls, hash, r, shift, head, old, done);
        assert(reps.last() == r);
        assert(line_index::shift_of(reps) == shift + r.new_ranges.len() - r.old_len);
    }
}

/// Where a file is brought from its indexed lines to its content directly, as
/// a merge or a rename does, the index holds the content's lines afterwards.
pub proof fn the_index_follows_the_content(
    s: BuildView,
    file: commit::ParsedFileView,
    f: IndexedFileView,
    content: Seq<u8>,
    encoding: Option<Encoding>,
    kind: ReplacementKind,
    hash: ContentHash,
)
    requires
        f.lines.len() < u64::MAX,
        line_units::line_units(content).len() < u64::MAX,
    ensures
        ({
            let blocks = line_units::state_blocks(
                line_index::line_contents(f.lines),
                line_units::line_units(content),
            );
            let reps = graph_first::blocks_applied(s, file, f, blocks, encoding, kind).1;
            line_index::replaced_lines(f.lines, hash, reps) matches Some(ls)
                && line_index::line_contents(ls) == line_units::line_units(content)
        }),
{
    let old = line_index::line_contents(f.lines);
    let new = line_units::line_units(content);
    let blocks = line_units::state_blocks(old, new);
    line_units::state_blocks_lead_to_the_new_lines(old, new);
    line_units::lemma_common_prefix(old, new);
    let p = line_units::common_prefix(old, new);
    line_units::lemma_common_suffix(old.skip(p as int), new.skip(p as int));
    if blocks.len() > 0 {
        assert(blocks.drop_first() =~= seq![]);
    }
    reveal_with_fuel(in_order, 2);
    assert(in_order(blocks, 0, old.len()));
    replacements_follow_the_blocks(s, file, f, blocks, encoding, kind, hash);
}

/// Where a file is replaced in one piece, the index holds its content as one
/// line afterwards, and no line where it is empty.
pub proof fn the_index_follows_a_whole_replacement(
    s: BuildView,
    file: commit::ParsedFileView,
    f: IndexedFileView,
    content: Seq<u8>,
    encoding: Option<Encoding>,
    kind: ReplacementKind,
    hash: ContentHash,
)
    requires
        f.lines.len() < u64::MAX,
    ensures
        ({
            let blocks = seq![graph_first::whole_block(f.lines.len(), content)];
            let reps = graph_first::blocks_applied(s, file, f, blocks, encoding, kind).1;
            line_index::replaced_lines(f.lines, hash, reps) matches Some(ls)
                && line_index::line_contents(ls) == (if content.len() == 0 {
                seq![]
            } else {
                seq![content]
            })
        }),
{
    let old = line_index::line_contents(f.lines);
    let b = graph_first::whole_block(f.lines.len(), content);
    let blocks = seq![b];
    assert(blocks.drop_first() =~= seq![]);
    reveal_with_fuel(in_order, 2);
    assert(in_order(blocks, 0, old.len()));
    replacements_follow_the_blocks(s, file, f, blocks, encoding, kind, hash);
    assert(old.subrange(0, 0) =~= seq![]);
    assert(old.skip(old.len() as int) =~= seq![]);
    assert(line_units::after_blocks(old, blocks.drop_first(), old.len() as int) =~= seq![]);
    assert(line_units::after_blocks(old, blocks, 0) =~= b.new_lines);
}

/// The range that a line was given holds that line, in the content that the
/// lines are appended to and in all that is appended behind.
pub proof fn ranges_hold_their_lines(
    before: Seq<u8>,
    ls: Seq<Seq<u8>>,
    behind: Seq<u8>,
    i: int,
)
    requires
        0 <= i < ls.len(),
        before.len() + line_units::all_bytes(ls).len() <= u64::MAX,
    ensures
        ({
            let r = graph_first::ranges_from(before.len(), ls)[i];
            let all = before + line_units::all_bytes(ls) + behind;
            r.0 <= r.1 <= all.len() && all.subrange(r.0 as int, r.1 as int) == ls[i]
        }),
    decreases ls.len(),
{
    let head = ls.drop_last();
    let ha = line_units::all_bytes(head);
    let a = line_units::all_bytes(ls);
    assert(a == ha + ls.last());
    lemma_ranges_len(before.len(), head);
    let all = before + a + behind;
    if i < head.len() {
        ranges_hold_their_lines(before, head, ls.last() + behind, i);
        assert(all =~= before + ha + (ls.last() + behind));
    } else {
        let start = before.len() + ha.len();
        assert(all.subrange(start as int, (start + ls.last().len()) as int) =~= ls.last());
    }
}

proof fn lemma_push_keeps(list: Seq<Seq<char>>, y: Seq<char>)
    ensures
        list.push(y).contains(y),
        forall|x: Seq<char>| list.contains(x) ==> #[trigger] list.push(y).contains(x),
{
    let w = list.push(y);
    assert(w[list.len() as int] == y);
    assert forall|x: Seq<char>| list.contains(x) implies #[trigger] w.contains(x) by {
        let j = choose|j: int| 0 <= j < list.len() && list[j] == x;
        assert(w[j] == x);
    }
}

proof fn lemma_with_dir(list: Seq<Seq<char>>, d: Seq<char>)
    ensures
        paths::with_dir(list, d).contains(d),
        forall|x: Seq<char>| list.contains(x) ==> #[trigger] paths::with_dir(list, d).contains(x),
    decreases list.len(),
{
    if list.len() == 0 {
        assert(seq![d][0] == d);
    } else if list.last() == d {
        assert(list[list.len() - 1] == d);
    } else if paths::dir_less(list.last(), d) {
        lemma_push_keeps(list, d);
    } else {
        let head = list.drop_last();
        let h = paths::with_dir(head, d);
        lemma_with_dir(head, d);
        lemma_push_keeps(h, list.last());
        assert forall|x: Seq<char>| list.contains(x) implies #[trigger] h.push(
            list.last(),
        ).contains(x) by {
            let j = choose|j: int| 0 <= j < list.len() && list[j] == x;
            if j < head.len() {
                assert(head[j] == x);
                assert(head.contains(x));
            }
        }
    }
}

proof fn lemma_with_dirs(list: Seq<Seq<char>>, ds: Seq<Seq<char>>)
    ensures
        forall|x: Seq<char>|
            list.contains(x) || ds.contains(x) ==> #[trigger] paths::with_dirs(list, ds).contains(
                x,
            ),
    decreases ds.len(),
{
    if ds.len() > 0 {
        let head = ds.drop_last();
        lemma_with_dirs(list, head);
        lemma_with_dir(paths::with_dirs(list, head), ds.last());
        assert forall|x: Seq<char>|
            list.contains(x) || ds.contains(x) implies #[trigger] paths::with_dirs(
            list,
            ds,
        ).contains(x) by {
            if ds.contains(x) {
                let j = choose|j: int| 0 <= j < ds.len() && ds[j] == x;
                if j < head.len() {
                    assert(head[j] == x);
                    assert(head.contains(x));
                }
            }
            if list.contains(x) || head.contains(x) {
                assert(paths::with_dirs(list, head).contains(x));
            }
        }
    }
}

/// The directory of a path is among the directories above it.
proof fn lemma_parent_above(path: Seq<char>)
    requires
        paths::parent_path(path).len() > 0,
    ensures
        paths::ancestors(path).contains(paths::parent_path(path)),
    decreases path.len(),
{
    paths::lemma_last_segment(path);
    let head = path.drop_last();
    if path.last() == '/' {
        assert(path.take(path.len() - 1) =~= head);
        lemma_push_keeps(paths::ancestors(head), head);
    } else {
        paths::lemma_last_segment(head);
        let k = paths::last_segment_start(path);
        assert(path.take(k - 1) =~= head.take(k - 1));
        lemma_parent_above(head);
    }
}

proof fn lemma_required(files: Seq<commit::ParsedFileView>, i: int)
    requires
        0 <= i < files.len(),
        graph_first::creates(files[i].operation),
        paths::parent_path(files[i].path).len() > 0,
    ensures
        graph_first::required_directories(files).contains(paths::parent_path(files[i].path)),
    decreases files.len(),
{
    let head = files.drop_last();
    let before = graph_first::required_directories(head);
    let above = paths::ancestors(files.last().path);
    if i < head.len() {
        lemma_required(head, i);
    } else {
        lemma_parent_above(files.last().path);
    }
    lemma_with_dirs(before, above);
}

proof fn lemma_anchored(s: BuildView, ds: Seq<Seq<char>>)
    ensures
        graph_first::directories_built(s, ds) matches Ok(t) ==> (forall|d: Seq<char>|
            ds.contains(d) || s.anchors.contains_key(d) ==> #[trigger] t.anchors.contains_key(d)),
    decreases ds.len(),
{
    if ds.len() > 0 {
        let head = ds.drop_last();
        lemma_anchored(s, head);
        if let Ok(t) = graph_first::directories_built(s, ds) {
            let u = graph_first::directories_built(s, head)->Ok_0;
            assert forall|d: Seq<char>|
                ds.contains(d) || s.anchors.contains_key(d) implies #[trigger] t.anchors.contains_key(
            d) by {
                if ds.contains(d) {
                    let j = choose|j: int| 0 <= j < ds.len() && ds[j] == d;
                    if j < head.len() {
                        assert(head[j] == d);
                        assert(head.contains(d));
                    }
                }
                if head.contains(d) || s.anchors.contains_key(d) {
                    assert(u.anchors.contains_key(d));
                }
            }
        }
    }
}

proof fn lemma_blocks_keep(
    s: BuildView,
    file: commit::ParsedFileView,
    f: IndexedFileView,
    bs: Seq<BlockView>,
    encoding: Option<Encoding>,
    kind: ReplacementKind,
)
    ensures
        ({
            let t = graph_first::blocks_applied(s, file, f, bs, encoding, kind).0;
            &&& t.anchors == s.anchors
            &&& t.contents.len() >= s.contents.len()
            &&& t.contents.take(s.contents.len() as int) == s.contents
        }),
    decreases bs.len(),
{
    if bs.len() > 0 {
        lemma_blocks_keep(s, file, f, bs.drop_last(), encoding, kind);
        let t = graph_first::blocks_applied(s, file, f, bs, encoding, kind).0;
        let u = graph_first::blocks_applied(s, file, f, bs.drop_last(), encoding, kind).0;
        assert(t.contents.take(u.contents.len() as int) =~= u.contents);
        assert(t.contents.take(s.contents.len() as int) =~= u.contents.take(
            s.contents.len() as int,
        ));
    } else {
        assert(s.contents.take(s.contents.len() as int) =~= s.contents);
    }
}

/// What was written stays: every further file leaves the anchors as they are
/// and only appends content.
pub proof fn files_only_append(
    s: BuildView,
    files: Seq<commit::ParsedFileView>,
    idx: line_index::LineIndexView,
    is_merge: bool,
    graph_only: bool,
)
    ensures
        ({
            let t = graph_first::files_built(s, files, idx, is_merge, graph_only);
            &&& t.anchors == s.anchors
            &&& t.contents.len() >= s.contents.len()
            &&& t.contents.take(s.contents.len() as int) == s.contents
        }),
    decreases files.len(),
{
    if files.len() == 0 {
        assert(s.contents.take(s.contents.len() as int) =~= s.contents);
    } else {
        let head = files.drop_last();
        files_only_append(s, head, idx, is_merge, graph_only);
        let u = graph_first::files_built(s, head, idx, is_merge, graph_only);
        let i = (files.len() - 1) as usize;
        lemma_file_appends(u, files.last(), i, idx, is_merge, graph_only);
        let t = graph_first::files_built(s, files, idx, is_merge, graph_only);
        assert(t.contents.take(s.contents.len() as int) =~= u.contents.take(
            s.contents.len() as int,
        ));
    }
}

/// One file leaves the anchors as they are and only appends content.
pub proof fn lemma_file_appends(
    u: BuildView,
    f: commit::ParsedFileView,
    i: usize,
    idx: line_index::LineIndexView,
    is_merge: bool,
    graph_only: bool,
)
    ensures
        ({
            let t = graph_first::file_step(u, f, i, idx, is_merge, graph_only);
            &&& t.anchors == u.anchors
            &&& t.contents.len() >= u.contents.len()
            &&& t.contents.take(u.contents.len() as int) == u.contents
        }),
{
    let n = u.contents.len() as int;
    let t = graph_first::file_step(u, f, i, idx, is_merge, graph_only);
    assert(u.contents.take(n) =~= u.contents);
    match f.operation {
        FileOperation::Added | FileOperation::Copied => {
            assert(t.contents.take(n) =~= u.contents);
        },
        FileOperation::Deleted => {},
        FileOperation::Renamed => {
            if let Some(old_path) = f.old_path {
                if idx.files.contains_key(old_path) {
                    let indexed = idx.files[old_path];
                    let moved = graph_first::moved_step(u, f, old_path, indexed);
                    assert(moved.contents.take(n) =~= u.contents);
                    let described = if !graph_only && !graph_first::in_one_piece(f)
                        && f.diff_lines is Some {
                        graph_first::with_file_ops(
                            moved,
                            graph_first::FileOpsView::FromDiff { path: f.path, file: i },
                        )
                    } else {
                        moved
                    };
                    let content = graph_first::content_or_empty(f);
                    let blocks = if graph_first::in_one_piece(f) {
                        seq![graph_first::whole_block(indexed.lines.len(), content)]
                    } else {
                        line_units::state_blocks(
                            line_index::line_contents(indexed.lines),
                            line_units::line_units(content),
                        )
                    };
                    lemma_blocks_keep(
                        described,
                        f,
                        indexed,
                        blocks,
                        Some(f.new_encoding),
                        ReplacementKind::Rename,
                    );
                    assert(t.contents.take(n) =~= t.contents.take(
                        described.contents.len() as int,
                    ).take(n));
                }
            }
        },
        FileOperation::Modified => {
            if graph_first::modified_refusal(f, idx, is_merge) is None {
                let indexed = idx.files[f.path];
                let content = graph_first::content_or_empty(f);
                let by_diff = !graph_first::in_one_piece(f) && !is_merge;
                let described = if by_diff && !graph_only {
                    graph_first::with_file_ops(
                        u,
                        graph_first::FileOpsView::FromDiff { path: f.path, file: i },
                    )
                } else {
                    u
                };
                let blocks = if graph_first::in_one_piece(f) {
                    seq![graph_first::whole_block(indexed.lines.len(), content)]
                } else if is_merge {
                    line_units::state_blocks(
                        line_index::line_contents(indexed.lines),
                        line_units::line_units(content),
                    )
                } else {
                    line_units::diff_blocks(f.diff_lines->0)
                };
                lemma_blocks_keep(
                    described,
                    f,
                    indexed,
                    blocks,
                    graph_first::text_encoding(Some(f.new_encoding)),
                    ReplacementKind::Modify,
                );
            }
        },
    }
}

/// A new file always finds its directory: once the directories of a commit
/// are made, every file that the commit creates has a place to be added at.
pub proof fn new_files_find_their_directory(
    directories: Map<Seq<char>, Position>,
    files: Seq<commit::ParsedFileView>,
    i: int,
)
    requires
        0 <= i < files.len(),
        graph_first::creates(files[i].operation),
        graph_first::directories_built(
            graph_first::build_start(directories),
            graph_first::required_directories(files),
        ) is Ok,
    ensures
        graph_first::anchored_parent(
            graph_first::directories_built(
                graph_first::build_start(directories),
                graph_first::required_directories(files),
            )->Ok_0.anchors,
            files[i].path,
        ) is Some,
{
    if paths::parent_path(files[i].path).len() > 0 {
        lemma_required(files, i);
        lemma_anchored(
            graph_first::build_start(directories),
            graph_first::required_directories(files),
        );
    }
}

/// A block is placed where it lies or not at all: exactly the old lines that
/// it names are replaced, and a block that names lines that are not there is
/// refused.
pub proof fn blocks_are_placed_where_they_lie(b: BlockView, n: nat, kind: ReplacementKind)
    requires
        n < u64::MAX,
    ensures
        graph_first::placed(b, n, kind) is Ok <==> 0 <= block_start(b) && block_start(b)
            + b.old_len <= n,
        graph_first::placed(b, n, kind) matches Ok((a, e)) ==> a == block_start(b) && e - a
            == b.old_len && 0 <= a <= e <= n,
{
}

} // verus!
