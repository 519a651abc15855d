//! That the lines of an indexed file keep places of their own, commit after
//! commit.

use crate::commit;
use crate::edges;
use crate::graph::{ContentHash, Encoding, Position};
use crate::graph_first;
use crate::graph_first::{BuildView, ReplacementKind};
use crate::line_index;
use crate::line_index::{ImportLineView, IndexedFileView};
use crate::line_units;
use crate::line_units::BlockView;
use crate::mirror;
use crate::replay;
use vstd::prelude::*;

verus! {

/// Lines that are not empty end one behind the other.
proof fn lemma_ends_rise(base: nat, ls: Seq<Seq<u8>>)
    requires
        base + line_units::all_bytes(ls).len() <= u64::MAX,
        forall|i: int| 0 <= i < ls.len() ==> (#[trigger] ls[i]).len() > 0,
    ensures
        graph_first::ranges_from(base, ls).len() == ls.len(),
        forall|i: int|
            0 <= i < ls.len() ==> base < (#[trigger] graph_first::ranges_from(base, ls)[i]).1
                <= base + line_units::all_bytes(ls).len(),
        forall|i: int, j: int|
            0 <= i < j < ls.len() ==> (#[trigger] graph_first::ranges_from(base, ls)[i]).1 < (
            #[trigger] graph_first::ranges_from(base, ls)[j]).1,
    decreases ls.len(),
{
    if ls.len() > 0 {
        let h = ls.drop_last();
        assert forall|i: int| 0 <= i < h.len() implies (#[trigger] h[i]).len() > 0 by {
            assert(h[i] == ls[i]);
        }
        assert(line_units::all_bytes(ls) == line_units::all_bytes(h) + ls.last());
        lemma_ends_rise(base, h);
        let rs = graph_first::ranges_from(base, ls);
        let hs = graph_first::ranges_from(base, h);
        assert(rs == hs.push(rs.last()));
        assert(ls[ls.len() - 1].len() > 0);
        assert forall|i: int, j: int| 0 <= i < j < ls.len() implies (#[trigger] rs[i]).1 < (
        #[trigger] rs[j]).1 by {
            assert(rs[i] == hs[i]);
            if j < h.len() {
                assert(rs[j] == hs[j]);
            }
        }
    }
}

/// Whether a line is one of the first old ones, or one of the change that
/// ends within what is written.
spec fn known_place(
    l: ImportLineView,
    before: Seq<ImportLineView>,
    done: int,
    hash: ContentHash,
    size: nat,
) -> bool {
    if l.change == hash {
        l.end <= size
    } else {
        exists|j: int| 0 <= j < done && edges::same_node(l, #[trigger] before[j])
    }
}

/// The lines while blocks are applied: the first `m` have places of their
/// own, and behind them are the old lines from `done` on.
spec fn placed_so_far(
    now: Seq<ImportLineView>,
    m: int,
    before: Seq<ImportLineView>,
    done: int,
    hash: ContentHash,
    size: nat,
) -> bool {
    &&& 0 <= m <= now.len()
    &&& 0 <= done <= before.len()
    &&& now.len() - m == before.len() - done
    &&& forall|i: int| 0 <= i < m ==> #[trigger] known_place(now[i], before, done, hash, size)
    &&& forall|i: int, k: int|
        0 <= i < k < m ==> (#[trigger] now[i]).change != (#[trigger] now[k]).change || now[i].end
            != now[k].end
    &&& forall|i: int|
        m <= i < now.len() ==> edges::same_node(#[trigger] now[i], before[done + i - m])
}

#[verifier::spinoff_prover]
#[verifier::rlimit(40)]
proof fn lemma_next_placed(
    now: Seq<ImportLineView>,
    m: int,
    f: IndexedFileView,
    done: int,
    hash: ContentHash,
    size: nat,
    b: BlockView,
    r: line_index::PendingReplacementView,
)
    requires
        placed_so_far(now, m, f.lines, done, hash, size),
        replay::well_placed(f),
        forall|k: int| 0 <= k < f.lines.len() ==> (#[trigger] f.lines[k]).change != hash,
        done <= mirror::block_start(b),
        replay::block_end(b) <= f.lines.len() < u64::MAX,
        size + line_units::all_bytes(b.new_lines).len() <= u64::MAX,
        forall|i: int| 0 <= i < b.new_lines.len() ==> (#[trigger] b.new_lines[i]).len() > 0,
        r.start_idx == mirror::block_start(b),
        r.old_len == b.old_len,
        r.new_ranges == graph_first::ranges_from(size, b.new_lines),
        r.new_lines == b.new_lines,
    ensures
        ({
            let a = mirror::block_start(b);
            let e = replay::block_end(b);
            let x = m + (a - done);
            line_index::spliced(now, hash, r, m - done) matches Some(fin) && placed_so_far(
                fin,
                x + b.new_lines.len(),
                f.lines,
                e,
                hash,
                size + line_units::all_bytes(b.new_lines).len(),
            )
        }),
{
    let a = mirror::block_start(b);
    let e = replay::block_end(b);
    let shift = m - done;
    let x = m + (a - done);
    let y = x + b.old_len;
    let n = b.new_lines.len() as int;
    let after = size + line_units::all_bytes(b.new_lines).len();
    lemma_ends_rise(size, b.new_lines);
    assert(line_index::shifted_start(r.start_idx, shift) == x);
    assert(line_index::shifted_end(x, r.old_len, now.len()) == y);
    let new = line_index::current_lines(hash, r.new_ranges, r.new_lines);
    let out = now.take(x) + new + now.skip(y);
    let fin = line_index::spliced(now, hash, r, shift)->0;
    let k = x + n;
    assert(fin.len() == out.len());
    assert forall|i: int| 0 <= i < fin.len() implies edges::same_node(
        #[trigger] fin[i],
        out[i],
    ) by {}
    assert forall|i: int| 0 <= i < k implies #[trigger] known_place(
        fin[i],
        f.lines,
        e,
        hash,
        after,
    ) by {
        assert(edges::same_node(fin[i], out[i]));
        if i < m {
            assert(known_place(now[i], f.lines, done, hash, size));
            if now[i].change != hash {
                let j = choose|j: int|
                    0 <= j < done && edges::same_node(now[i], #[trigger] f.lines[j]);
                assert(edges::same_node(fin[i], f.lines[j]));
            }
        } else if i < x {
            assert(edges::same_node(now[i], f.lines[done + i - m]));
            assert(edges::same_node(fin[i], f.lines[done + i - m]));
        } else {
            assert(out[i] == new[i - x]);
            assert(r.new_ranges[i - x].1 <= after);
        }
    }
    assert forall|i: int, l: int| 0 <= i < l < k implies (#[trigger] fin[i]).change != (
    #[trigger] fin[l]).change || fin[i].end != fin[l].end by {
        assert(edges::same_node(fin[i], out[i]));
        assert(edges::same_node(fin[l], out[l]));
        if l < m {
            assert(now[i].change != now[l].change || now[i].end != now[l].end);
        } else if l < x {
            let q = done + l - m;
            assert(edges::same_node(now[l], f.lines[q]));
            if i < m {
                assert(known_place(now[i], f.lines, done, hash, size));
                if now[i].change != hash {
                    let j = choose|j: int|
                        0 <= j < done && edges::same_node(now[i], #[trigger] f.lines[j]);
                    assert(f.lines[j].change != f.lines[q].change || f.lines[j].end
                        != f.lines[q].end);
                } else {
                    assert(f.lines[q].change != hash);
                }
            } else {
                let p = done + i - m;
                assert(edges::same_node(now[i], f.lines[p]));
                assert(f.lines[p].change != f.lines[q].change || f.lines[p].end
                    != f.lines[q].end);
            }
        } else {
            assert(out[l] == new[l - x]);
            assert(r.new_ranges[l - x].1 > size);
            if i < m {
                assert(known_place(now[i], f.lines, done, hash, size));
            } else if i < x {
                assert(edges::same_node(now[i], f.lines[done + i - m]));
                assert(f.lines[done + i - m].change != hash);
            } else {
                assert(out[i] == new[i - x]);
                assert(r.new_ranges[i - x].1 < r.new_ranges[l - x].1);
            }
        }
    }
    assert forall|i: int| k <= i < fin.len() implies edges::same_node(
        #[trigger] fin[i],
        f.lines[e + i - k],
    ) by {
        let q = y + (i - k);
        assert(out[i] == now[q]);
        assert(edges::same_node(now[q], f.lines[done + q - m]));
        assert(edges::same_node(fin[i], out[i]));
    }
}

proof fn lemma_blocks_placed(
    s: BuildView,
    file: commit::ParsedFileView,
    f: IndexedFileView,
    bs: Seq<BlockView>,
    encoding: Option<Encoding>,
    kind: ReplacementKind,
    hash: ContentHash,
) -> (m: int)
    requires
        replay::well_placed(f),
        f.lines.len() < u64::MAX,
        forall|k: int| 0 <= k < f.lines.len() ==> (#[trigger] f.lines[k]).change != hash,
        mirror::in_order(bs, 0, f.lines.len()),
        forall|k: int, i: int|
            0 <= k < bs.len() && 0 <= i < bs[k].new_lines.len() ==> (
            #[trigger] bs[k].new_lines[i]).len() > 0,
        graph_first::blocks_applied(s, file, f, bs, encoding, kind).0.contents.len() <= u64::MAX,
    ensures
        ({
            let (t, reps) = graph_first::blocks_applied(s, file, f, bs, encoding, kind);
            let done = mirror::reached(bs, 0);
            &&& m == done + line_index::shift_of(reps)
            &&& line_index::replaced_lines(f.lines, hash, reps) matches Some(ls) && placed_so_far(
                ls,
                m,
                f.lines,
                done,
                hash,
                t.contents.len(),
            )
        }),
    decreases bs.len(),
{
    let (t, reps) = graph_first::blocks_applied(s, file, f, bs, encoding, kind);
    let old = line_index::line_contents(f.lines);
    if bs.len() == 0 {
        0
    } else {
        let front = bs.drop_last();
        let b = bs.last();
        assert(bs =~= front.push(b));
        assert(bs[bs.len() - 1] == b);
        mirror::lemma_further_block(old, front, b, 0);
        mirror::lemma_after_blocks(old, front, 0);
        assert forall|k: int, i: int|
            0 <= k < front.len() && 0 <= i < front[k].new_lines.len() implies (
        #[trigger] front[k].new_lines[i]).len() > 0 by {
            assert(bs[k].new_lines[i].len() > 0);
        }
        assert forall|i: int| 0 <= i < b.new_lines.len() implies (
        #[trigger] b.new_lines[i]).len() > 0 by {
            assert(bs[bs.len() - 1].new_lines[i].len() > 0);
        }
        mirror::lemma_placed(b, f.lines.len(), kind);
        let (u, p) = graph_first::blocks_applied(s, file, f, front, encoding, kind);
        let a = mirror::block_start(b);
        let e = replay::block_end(b);
        assert(t == graph_first::block_applied(u, file.path, f, b, a, e, encoding));
        let r = graph_first::block_pending(u, f, b, a, e);
        assert(reps == p.push(r));
        assert(reps.drop_last() =~= p);
        let m = lemma_blocks_placed(s, file, f, front, encoding, kind, hash);
        let done = mirror::reached(front, 0);
        mirror::lemma_ranges_len(u.contents.len(), b.new_lines);
        let ls = line_index::replaced_lines(f.lines, hash, p)->0;
        lemma_next_placed(ls, m, f, done, hash, u.contents.len(), b, r);
        assert(line_index::shift_of(reps) == line_index::shift_of(p) + r.new_ranges.len()
            - r.old_len);
        m + (a - done) + b.new_lines.len()
    }
}

/// A changed file keeps its places: after the replacements of a further
/// change, still no two of its lines end at the same position, and none at
/// the inode.
pub proof fn a_changed_file_keeps_its_places(
    s: BuildView,
    file: commit::ParsedFileView,
    f: IndexedFileView,
    bs: Seq<BlockView>,
    encoding: Option<Encoding>,
    kind: ReplacementKind,
    hash: ContentHash,
    count: u64,
)
    requires
        replay::well_placed(f),
        f.lines.len() < u64::MAX,
        forall|k: int| 0 <= k < f.lines.len() ==> (#[trigger] f.lines[k]).change != hash,
        f.inode_pos.change != Some(hash),
        mirror::in_order(bs, 0, f.lines.len()),
        forall|k: int, i: int|
            0 <= k < bs.len() && 0 <= i < bs[k].new_lines.len() ==> (
            #[trigger] bs[k].new_lines[i]).len() > 0,
        graph_first::blocks_applied(s, file, f, bs, encoding, kind).0.contents.len() <= u64::MAX,
    ensures
        ({
            let reps = graph_first::blocks_applied(s, file, f, bs, encoding, kind).1;
            line_index::replaced_lines(f.lines, hash, reps) matches Some(ls)
                && replay::well_placed(
                IndexedFileView { inode_pos: f.inode_pos, lines: ls, imported_commits: count },
            )
        }),
{
    let (t, reps) = graph_first::blocks_applied(s, file, f, bs, encoding, kind);
    let m = lemma_blocks_placed(s, file, f, bs, encoding, kind, hash);
    let done = mirror::reached(bs, 0);
    let ls = line_index::replaced_lines(f.lines, hash, reps)->0;
    let size = t.contents.len();
    assert forall|i: int| 0 <= i < ls.len() implies known_place(
        #[trigger] ls[i],
        f.lines,
        f.lines.len() as int,
        hash,
        size,
    ) by {
        if i < m {
            assert(known_place(ls[i], f.lines, done, hash, size));
            if ls[i].change != hash {
                let j = choose|j: int|
                    0 <= j < done && edges::same_node(ls[i], #[trigger] f.lines[j]);
                assert(edges::same_node(ls[i], f.lines[j]));
            }
        } else {
            assert(edges::same_node(ls[i], f.lines[done + i - m]));
        }
    }
    assert forall|i: int| 0 <= i < ls.len() implies f.inode_pos != (Position {
        change: Some((#[trigger] ls[i]).change),
        pos: ls[i].end,
    }) by {
        assert(known_place(ls[i], f.lines, f.lines.len() as int, hash, size));
        if ls[i].change != hash {
            let j = choose|j: int|
                0 <= j < f.lines.len() && edges::same_node(ls[i], #[trigger] f.lines[j]);
            assert(f.inode_pos != (Position {
                change: Some(f.lines[j].change),
                pos: f.lines[j].end,
            }));
        }
    }
    assert forall|i: int, k: int| 0 <= i < k < ls.len() implies (#[trigger] ls[i]).change != (
    #[trigger] ls[k]).change || ls[i].end != ls[k].end by {
        if k >= m {
            let q = done + k - m;
            assert(edges::same_node(ls[k], f.lines[q]));
            assert(f.lines[q].change != hash);
            if i >= m {
                let p = done + i - m;
                assert(edges::same_node(ls[i], f.lines[p]));
                assert(f.lines[p].change != f.lines[q].change || f.lines[p].end
                    != f.lines[q].end);
            } else {
                assert(known_place(ls[i], f.lines, done, hash, size));
                if ls[i].change != hash {
                    let j = choose|j: int|
                        0 <= j < done && edges::same_node(ls[i], #[trigger] f.lines[j]);
                    assert(f.lines[j].change != f.lines[q].change || f.lines[j].end
                        != f.lines[q].end);
                }
            }
        }
    }
}

/// A new file has its places: the lines that are written behind its inode
/// end one behind the other.
pub proof fn a_new_file_has_its_places(
    named: Seq<u8>,
    ls: Seq<Seq<u8>>,
    hash: ContentHash,
    count: u64,
)
    requires
        named.len() + line_units::all_bytes(ls).len() <= u64::MAX,
        forall|i: int| 0 <= i < ls.len() ==> (#[trigger] ls[i]).len() > 0,
    ensures
        replay::well_placed(
            IndexedFileView {
                inode_pos: Position { change: Some(hash), pos: named.len() as u64 },
                lines: line_index::current_lines(
                    hash,
                    graph_first::ranges_from(named.len(), ls),
                    ls,
                ),
                imported_commits: count,
            },
        ),
{
    lemma_ends_rise(named.len(), ls);
    let rs = graph_first::ranges_from(named.len(), ls);
    let all = line_index::current_lines(hash, rs, ls);
    assert forall|i: int| 0 <= i < all.len() implies named.len() < (#[trigger] all[i]).end by {
        assert(rs[i].1 > named.len());
    }
    assert forall|i: int, j: int| 0 <= i < j < all.len() implies (#[trigger] all[i]).change != (
    #[trigger] all[j]).change || all[i].end != all[j].end by {
        assert(rs[i].1 < rs[j].1);
    }
}

} // verus!
