//! What the line index says of nodes and edges once a change is recorded:
//! where the bytes of each line are, and which change leads to it.

use crate::commit;
use crate::graph::{ContentHash, Encoding};
use crate::graph_first;
use crate::graph_first::{BuildView, ReplacementKind};
use crate::line_index;
use crate::line_index::{ImportLineView, IndexedFileView};
use crate::line_units;
use crate::line_units::BlockView;
use crate::mirror;
use crate::replay;
use vstd::prelude::*;

verus! {

/// Whether two lines are one node: the same bytes of the same change.
pub open spec fn same_node(a: ImportLineView, b: ImportLineView) -> bool {
    a.change == b.change && a.start == b.start && a.end == b.end && a.content == b.content
}

/// Whether the line `i` of a list stands behind the same line as the line `j`
/// of another, or both stand first.
pub open spec fn same_neighbour(
    a: Seq<ImportLineView>,
    i: int,
    b: Seq<ImportLineView>,
    j: int,
) -> bool {
    if i == 0 || j == 0 {
        i == 0 && j == 0
    } else {
        same_node(a[i - 1], b[j - 1])
    }
}

/// Whether the index is right about a line after the change `hash` with these
/// contents: a line of the change holds its bytes, and the change leads to
/// it; any other line is one that was there before, and the change leads to
/// it where it has a new neighbour before it, else what led to it before.
pub open spec fn told_right(
    now: Seq<ImportLineView>,
    i: int,
    before: Seq<ImportLineView>,
    hash: ContentHash,
    contents: Seq<u8>,
) -> bool {
    let l = now[i];
    if l.change == hash {
        &&& l.incoming_by == hash
        &&& l.start <= l.end <= contents.len()
        &&& contents.subrange(l.start as int, l.end as int) == l.content
    } else {
        exists|j: int|
            0 <= j < before.len() && same_node(l, #[trigger] before[j]) && l.incoming_by == (
            if same_neighbour(now, i, before, j) {
                before[j].incoming_by
            } else {
                hash
            })
    }
}

/// The lines while blocks are applied: `m` of them are final, and behind them
/// are the old lines from `done` on, the first of them led to by the change
/// once a block was applied.
spec fn so_far(
    now: Seq<ImportLineView>,
    m: int,
    before: Seq<ImportLineView>,
    done: int,
    begun: bool,
    hash: ContentHash,
    contents: Seq<u8>,
) -> bool {
    &&& 0 <= m <= now.len()
    &&& 0 <= done <= before.len()
    &&& now.len() - m == before.len() - done
    &&& !begun ==> m == 0 && done == 0
    &&& forall|i: int| 0 <= i < m ==> #[trigger] told_right(now, i, before, hash, contents)
    &&& forall|i: int|
        m <= i < now.len() ==> same_node(#[trigger] now[i], before[done + i - m])
            && now[i].incoming_by == (if begun && i == m {
            hash
        } else {
            before[done + i - m].incoming_by
        })
    &&& begun && m == 0 ==> done > 0
    &&& begun && m > 0 && done > 0 ==> !same_node(now[m - 1], before[done - 1])
}

/// What is told right stays so when more is appended to the contents.
proof fn lemma_more_contents(
    now: Seq<ImportLineView>,
    i: int,
    before: Seq<ImportLineView>,
    hash: ContentHash,
    contents: Seq<u8>,
    more: Seq<u8>,
)
    requires
        told_right(now, i, before, hash, contents),
    ensures
        told_right(now, i, before, hash, contents + more),
{
    let l = now[i];
    if l.change == hash {
        assert((contents + more).subrange(l.start as int, l.end as int) =~= contents.subrange(
            l.start as int,
            l.end as int,
        ));
    } else {
        let j = choose|j: int|
            0 <= j < before.len() && same_node(l, #[trigger] before[j]) && l.incoming_by == (
            if same_neighbour(now, i, before, j) {
                before[j].incoming_by
            } else {
                hash
            });
        assert(same_node(l, before[j]));
    }
}

/// A line is told right by itself and the line before it.
proof fn lemma_told_by_two(
    a: Seq<ImportLineView>,
    b: Seq<ImportLineView>,
    i: int,
    before: Seq<ImportLineView>,
    hash: ContentHash,
    contents: Seq<u8>,
)
    requires
        0 <= i,
        told_right(a, i, before, hash, contents),
        a[i] == b[i],
        i > 0 ==> a[i - 1] == b[i - 1],
    ensures
        told_right(b, i, before, hash, contents),
{
    let l = a[i];
    if l.change != hash {
        let j = choose|j: int|
            0 <= j < before.len() && same_node(l, #[trigger] before[j]) && l.incoming_by == (
            if same_neighbour(a, i, before, j) {
                before[j].incoming_by
            } else {
                hash
            });
        assert(same_neighbour(a, i, before, j) == same_neighbour(b, i, before, j));
        assert(same_node(b[i], before[j]));
    }
}

/// One more block is applied.
#[verifier::spinoff_prover]
#[verifier::rlimit(40)]
proof fn lemma_next_block(
    now: Seq<ImportLineView>,
    m: int,
    f: IndexedFileView,
    done: int,
    begun: bool,
    hash: ContentHash,
    before: Seq<u8>,
    b: BlockView,
    r: line_index::PendingReplacementView,
)
    requires
        so_far(now, m, f.lines, done, begun, hash, before),
        replay::well_placed(f),
        forall|k: int| 0 <= k < f.lines.len() ==> (#[trigger] f.lines[k]).change != hash,
        done <= mirror::block_start(b),
        begun ==> done < mirror::block_start(b),
        replay::block_end(b) <= f.lines.len() < u64::MAX,
        b.old_len > 0 || b.new_lines.len() > 0,
        before.len() + line_units::all_bytes(b.new_lines).len() <= u64::MAX,
        r.start_idx == mirror::block_start(b),
        r.old_len == b.old_len,
        r.new_ranges == graph_first::ranges_from(before.len(), b.new_lines),
        r.new_lines == b.new_lines,
        r.successor_incoming_by_current == (replay::block_end(b) < f.lines.len()),
    ensures
        ({
            let a = mirror::block_start(b);
            let e = replay::block_end(b);
            let x = m + (a - done);
            line_index::spliced(now, hash, r, m - done) matches Some(fin) && so_far(
                fin,
                x + b.new_lines.len(),
                f.lines,
                e,
                true,
                hash,
                before + line_units::all_bytes(b.new_lines),
            )
        }),
{
    let a = mirror::block_start(b);
    let e = replay::block_end(b);
    let shift = m - done;
    let x = m + (a - done);
    let y = x + b.old_len;
    let n = b.new_lines.len() as int;
    let more = line_units::all_bytes(b.new_lines);
    let contents = before + more;
    mirror::lemma_ranges_len(before.len(), b.new_lines);
    assert(line_index::shifted_start(r.start_idx, shift) == x);
    assert(line_index::shifted_end(x, r.old_len, now.len()) == y);
    let new = line_index::current_lines(hash, r.new_ranges, r.new_lines);
    let out = now.take(x) + new + now.skip(y);
    let fin = line_index::spliced(now, hash, r, shift)->0;
    let k = x + n;
    assert(fin.len() == out.len());
    assert forall|i: int| 0 <= i < fin.len() && i != k implies #[trigger] fin[i] == out[i] by {}
    assert(k < fin.len() ==> fin[k] == (ImportLineView { incoming_by: hash, ..out[k] }));
    assert forall|i: int| 0 <= i < k implies #[trigger] told_right(
        fin,
        i,
        f.lines,
        hash,
        contents,
    ) by {
        if i < m {
            assert(told_right(now, i, f.lines, hash, before));
            lemma_told_by_two(now, fin, i, f.lines, hash, before);
            lemma_more_contents(fin, i, f.lines, hash, before, more);
        } else if i < x {
            let j = done + i - m;
            assert(fin[i] == now[i]);
            assert(same_node(now[i], f.lines[j]));
            assert(f.lines[j].change != hash);
            if i > m {
                assert(fin[i - 1] == now[i - 1]);
                assert(same_node(now[i - 1], f.lines[j - 1]));
                assert(same_neighbour(fin, i, f.lines, j));
            } else if begun {
                assert(i > 0 ==> fin[i - 1] == now[i - 1]);
                assert(!same_neighbour(fin, i, f.lines, j));
            }
            assert(same_node(fin[i], f.lines[j]));
        } else {
            let p = i - x;
            assert(fin[i] == new[p]);
            mirror::ranges_hold_their_lines(before, b.new_lines, Seq::empty(), p);
            assert(contents + Seq::<u8>::empty() =~= contents);
        }
    }
    assert forall|i: int| k <= i < fin.len() implies same_node(
        #[trigger] fin[i],
        f.lines[e + i - k],
    ) && fin[i].incoming_by == (if i == k {
        hash
    } else {
        f.lines[e + i - k].incoming_by
    }) by {
        let q = y + (i - k);
        assert(out[i] == now[q]);
        assert(same_node(now[q], f.lines[done + q - m]));
    }
    if k == 0 {
        assert(e > 0);
    } else if e > 0 {
        if n > 0 {
            assert(fin[k - 1] == new[n - 1]);
            assert(f.lines[e - 1].change != hash);
        } else {
            assert(a > done);
            assert(fin[k - 1] == now[x - 1]);
            assert(same_node(now[x - 1], f.lines[a - 1]));
            assert(f.lines[a - 1].change != f.lines[e - 1].change || f.lines[a - 1].end
                != f.lines[e - 1].end);
        }
    }
}

proof fn lemma_blocks_told(
    s: BuildView,
    file: commit::ParsedFileView,
    f: IndexedFileView,
    bs: Seq<BlockView>,
    encoding: Option<Encoding>,
    kind: ReplacementKind,
    hash: ContentHash,
) -> (m: int)
    requires
        replay::well_placed(f),
        f.lines.len() < u64::MAX,
        forall|k: int| 0 <= k < f.lines.len() ==> (#[trigger] f.lines[k]).change != hash,
        mirror::in_order(bs, 0, f.lines.len()),
        replay::apart(bs),
        forall|k: int|
            0 <= k < bs.len() ==> (#[trigger] bs[k]).old_len > 0 || bs[k].new_lines.len() > 0,
        graph_first::blocks_applied(s, file, f, bs, encoding, kind).0.contents.len() <= u64::MAX,
    ensures
        ({
            let (t, reps) = graph_first::blocks_applied(s, file, f, bs, encoding, kind);
            let done = mirror::reached(bs, 0);
            &&& m == done + line_index::shift_of(reps)
            &&& bs.len() > 0 ==> done == replay::block_end(bs.last())
            &&& line_index::replaced_lines(f.lines, hash, reps) matches Some(ls) && so_far(
                ls,
                m,
                f.lines,
                done,
                bs.len() > 0,
                hash,
                t.contents,
            )
        }),
    decreases bs.len(),
{
    let (t, reps) = graph_first::blocks_applied(s, file, f, bs, encoding, kind);
    let old = line_index::line_contents(f.lines);
    if bs.len() == 0 {
        0
    } else {
        let front = bs.drop_last();
        let b = bs.last();
        assert(bs =~= front.push(b));
        assert(bs[bs.len() - 1] == b);
        mirror::lemma_further_block(old, front, b, 0);
        assert(replay::apart(front)) by {
            assert forall|i: int, j: int| 0 <= i < j < front.len() implies replay::block_end(
                #[trigger] front[i],
            ) < mirror::block_start(#[trigger] front[j]) by {
                assert(front[i] == bs[i] && front[j] == bs[j]);
            }
        }
        assert forall|k: int| 0 <= k < front.len() implies (#[trigger] front[k]).old_len > 0
            || front[k].new_lines.len() > 0 by {
            assert(front[k] == bs[k]);
        }
        mirror::lemma_placed(b, f.lines.len(), kind);
        let (u, p) = graph_first::blocks_applied(s, file, f, front, encoding, kind);
        let a = mirror::block_start(b);
        let e = replay::block_end(b);
        assert(t == graph_first::block_applied(u, file.path, f, b, a, e, encoding));
        let r = graph_first::block_pending(u, f, b, a, e);
        assert(reps == p.push(r));
        assert(reps.drop_last() =~= p);
        let m = lemma_blocks_told(s, file, f, front, encoding, kind, hash);
        let done = mirror::reached(front, 0);
        if front.len() > 0 {
            assert(bs[front.len() - 1] == front.last());
            assert(replay::block_end(bs[front.len() - 1]) < mirror::block_start(bs[bs.len() - 1]));
        }
        mirror::lemma_ranges_len(u.contents.len(), b.new_lines);
        let ls = line_index::replaced_lines(f.lines, hash, p)->0;
        lemma_next_block(ls, m, f, done, front.len() > 0, hash, u.contents, b, r);
        assert(line_index::shift_of(reps) == line_index::shift_of(p) + r.new_ranges.len()
            - r.old_len);
        m + (a - done) + b.new_lines.len()
    }
}

/// The index is right about every line: after the replacements of a change,
/// each of its lines is named where its bytes are, each other line is still
/// named where it was, and the change leads to exactly those lines that it
/// brought or gave a new neighbour before them.
pub proof fn the_index_names_nodes_and_edges(
    s: BuildView,
    file: commit::ParsedFileView,
    f: IndexedFileView,
    bs: Seq<BlockView>,
    encoding: Option<Encoding>,
    kind: ReplacementKind,
    hash: ContentHash,
    i: int,
)
    requires
        replay::well_placed(f),
        f.lines.len() < u64::MAX,
        forall|k: int| 0 <= k < f.lines.len() ==> (#[trigger] f.lines[k]).change != hash,
        mirror::in_order(bs, 0, f.lines.len()),
        replay::apart(bs),
        forall|k: int|
            0 <= k < bs.len() ==> (#[trigger] bs[k]).old_len > 0 || bs[k].new_lines.len() > 0,
        graph_first::blocks_applied(s, file, f, bs, encoding, kind).0.contents.len() <= u64::MAX,
    ensures
        ({
            let (t, reps) = graph_first::blocks_applied(s, file, f, bs, encoding, kind);
            line_index::replaced_lines(f.lines, hash, reps) matches Some(ls) && (0 <= i < ls.len()
                ==> told_right(ls, i, f.lines, hash, t.contents))
        }),
{
    let (t, reps) = graph_first::blocks_applied(s, file, f, bs, encoding, kind);
    let m = lemma_blocks_told(s, file, f, bs, encoding, kind, hash);
    let done = mirror::reached(bs, 0);
    let ls = line_index::replaced_lines(f.lines, hash, reps)->0;
    if m <= i < ls.len() {
        let j = done + i - m;
        assert(same_node(ls[i], f.lines[j]));
        if i > m {
            assert(same_node(ls[i - 1], f.lines[j - 1]));
        }
    }
}

} // verus!
