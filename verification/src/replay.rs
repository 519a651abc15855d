//! What is read from a diff and what is recorded in a change, replayed: both
//! lead from the old lines of a file to its new ones.
use crate::commit;
use crate::graph;
use crate::graph::{ContentHash, EdgeFlags, Encoding, GraphNode, NewEdge, Position};
use crate::graph_first;
use crate::graph_first::{BuildView, ReplacementKind};
use crate::line_index;
use crate::line_index::IndexedFileView;
use crate::line_units;
use crate::line_units::{BlockView, DiffLineView, DiffState};
use crate::mirror;
use vstd::prelude::*;

verus! {

/// How many old and new lines a diff has gone through, and whether it is
/// adding lines.
pub struct Reached {
    pub old: int,
    pub new: int,
    pub adding: bool,
}

/// The number of the line, counted from zero, that a diff line is about; the
/// next one where it gives no number.
pub open spec fn line_at(n: Option<u32>, next: int) -> int {
    match n {
        Some(k) => k - 1,
        None => next,
    }
}

/// How far a diff goes through the old and the new lines of a file, where it
/// is a diff of these: its context and removed lines are the old lines of
/// their numbers, its context and added lines are the new ones, and the lines
/// that it leaves out before a context line are the same on both sides. Lines
/// are removed before others are added in their place.
pub open spec fn followed(
    ls: Seq<DiffLineView>,
    old: Seq<Seq<u8>>,
    new: Seq<Seq<u8>>,
) -> Option<Reached>
    decreases ls.len(),
{
    if ls.len() == 0 {
        Some(Reached { old: 0, new: 0, adding: false })
    } else {
        match followed(ls.drop_last(), old, new) {
            None => None,
            Some(r) => {
                let l = ls.last();
                let o = line_at(l.old_lineno, r.old);
                let n = line_at(l.new_lineno, r.new);
                if l.origin == ' ' {
                    if r.old <= o < old.len() && n - r.new == o - r.old && n < new.len()
                        && old.subrange(r.old, o + 1) == new.subrange(r.new, n + 1) && l.content
                        == old[o] {
                        Some(Reached { old: o + 1, new: n + 1, adding: false })
                    } else {
                        None
                    }
                } else if l.origin == '-' {
                    if !r.adding && o == r.old && o < old.len() && l.content == old[o] {
                        Some(Reached { old: o + 1, ..r })
                    } else {
                        None
                    }
                } else if l.origin == '+' {
                    if n == r.new && n < new.len() && l.content == new[n] {
                        Some(Reached { new: n + 1, adding: true, ..r })
                    } else {
                        None
                    }
                } else {
                    Some(r)
                }
            },
        }
    }
}

/// Whether a diff describes how the old lines of a file become the new ones.
pub open spec fn describes(
    ls: Seq<DiffLineView>,
    old: Seq<Seq<u8>>,
    new: Seq<Seq<u8>>,
) -> bool {
    followed(ls, old, new) matches Some(r) && old.skip(r.old) == new.skip(r.new)
}

/// One past the last old line of a block.
pub open spec fn block_end(b: BlockView) -> int {
    mirror::block_start(b) + b.old_len
}

/// Whether at least one line lies between any two blocks.
pub open spec fn apart(bs: Seq<BlockView>) -> bool {
    forall|i: int, j: int|
        0 <= i < j < bs.len() ==> block_end(#[trigger] bs[i]) < mirror::block_start(
            #[trigger] bs[j],
        )
}

/// Whether the lines that blocks bring are the new lines of their numbers.
pub open spec fn numbered_in(bs: Seq<BlockView>, new: Seq<Seq<u8>>) -> bool {
    forall|i: int|
        0 <= i < bs.len() && (#[trigger] bs[i]).new_lines.len() > 0 ==> {
            &&& 1 <= bs[i].new_start
            &&& bs[i].new_start - 1 + bs[i].new_lines.len() <= new.len()
            &&& bs[i].new_lines == new.subrange(
                bs[i].new_start - 1,
                bs[i].new_start - 1 + bs[i].new_lines.len(),
            )
        }
}

proof fn lemma_block_behind(bs: Seq<BlockView>, b: BlockView, done: int, n: nat)
    requires
        mirror::in_order(bs, done, n),
        mirror::reached(bs, done) <= mirror::block_start(b),
        block_end(b) <= n,
    ensures
        mirror::in_order(bs.push(b), done, n),
    decreases bs.len(),
{
    let all = bs.push(b);
    if bs.len() == 0 {
        assert(all[0] == b);
        assert(all.drop_first() =~= seq![]);
        reveal_with_fuel(mirror::in_order, 2);
    } else {
        assert(all[0] == bs[0]);
        assert(all.drop_first() =~= bs.drop_first().push(b));
        lemma_block_behind(bs.drop_first(), b, block_end(bs[0]), n);
    }
}

/// What the state of a diff holds, once it has gone through the lines of two
/// files up to `r`.
spec fn in_step(s: DiffState, r: Reached, old: Seq<Seq<u8>>, new: Seq<Seq<u8>>) -> bool {
    let c = r.old - s.old_len;
    let d = r.new - s.new_lines.len();
    &&& 0 <= c && 0 <= d
    &&& r.old <= old.len() && r.new <= new.len()
    &&& s.old_cursor == r.old + 1 && s.new_cursor == r.new + 1
    &&& s.new_lines == new.subrange(d, r.new)
    &&& (s.new_lines.len() > 0 ==> r.adding)
    &&& s.old_start == (if s.old_len > 0 {
        Some((c + 1) as u64)
    } else if s.new_lines.len() > 0 {
        Some(c as u64)
    } else {
        None
    })
    &&& s.new_start == (if s.new_lines.len() > 0 {
        Some((d + 1) as u64)
    } else {
        None
    })
    &&& mirror::in_order(s.blocks, 0, old.len())
    &&& mirror::reached(s.blocks, 0) <= c
    &&& mirror::rewritten(old, s.blocks, 0) + old.subrange(mirror::reached(s.blocks, 0), c)
        == new.take(d)
    &&& apart(s.blocks)
    &&& forall|i: int| 0 <= i < s.blocks.len() ==> block_end(#[trigger] s.blocks[i]) < c
    &&& numbered_in(s.blocks, new)
}

/// What is left once the block under construction is closed.
spec fn closed_up(s: DiffState, r: Reached, old: Seq<Seq<u8>>, new: Seq<Seq<u8>>) -> bool {
    &&& s.old_len == 0 && s.new_lines.len() == 0
    &&& s.old_start is None && s.new_start is None
    &&& mirror::in_order(s.blocks, 0, old.len())
    &&& mirror::reached(s.blocks, 0) <= r.old
    &&& mirror::rewritten(old, s.blocks, 0) + old.subrange(mirror::reached(s.blocks, 0), r.old)
        == new.take(r.new)
    &&& apart(s.blocks)
    &&& forall|i: int| 0 <= i < s.blocks.len() ==> block_end(#[trigger] s.blocks[i]) <= r.old
    &&& numbered_in(s.blocks, new)
}

proof fn lemma_flush(s: DiffState, r: Reached, old: Seq<Seq<u8>>, new: Seq<Seq<u8>>)
    requires
        in_step(s, r, old, new),
        old.len() < u64::MAX - 1,
        new.len() < u64::MAX - 1,
    ensures
        closed_up(line_units::diff_flush(s), r, old, new),
{
    let t = line_units::diff_flush(s);
    let c = r.old - s.old_len;
    let d = r.new - s.new_lines.len();
    if s.old_len > 0 || s.new_lines.len() > 0 {
        let b = t.blocks.last();
        assert(t.blocks =~= s.blocks.push(b));
        assert(mirror::block_start(b) == c);
        lemma_block_behind(s.blocks, b, 0, old.len());
        mirror::lemma_further_block(old, s.blocks, b, 0);
        assert(new.take(d) + new.subrange(d, r.new) =~= new.take(r.new));
        assert(old.subrange(r.old, r.old) =~= seq![]);
        let w = mirror::rewritten(old, t.blocks, 0);
        assert(w + old.subrange(r.old, r.old) =~= w);
        assert(w == new.take(r.new));
        assert forall|i: int, j: int| 0 <= i < j < t.blocks.len() implies block_end(
            #[trigger] t.blocks[i],
        ) < mirror::block_start(#[trigger] t.blocks[j]) by {
            assert(t.blocks[i] == s.blocks[i]);
            if j < s.blocks.len() {
                assert(t.blocks[j] == s.blocks[j]);
            }
        }
        assert forall|i: int| 0 <= i < t.blocks.len() implies block_end(#[trigger] t.blocks[i])
            <= r.old by {
            if i < s.blocks.len() {
                assert(t.blocks[i] == s.blocks[i]);
            }
        }
        assert forall|i: int|
            0 <= i < t.blocks.len() && (#[trigger] t.blocks[i]).new_lines.len() > 0 implies {
            &&& 1 <= t.blocks[i].new_start
            &&& t.blocks[i].new_start - 1 + t.blocks[i].new_lines.len() <= new.len()
            &&& t.blocks[i].new_lines == new.subrange(
                t.blocks[i].new_start - 1,
                t.blocks[i].new_start - 1 + t.blocks[i].new_lines.len(),
            )
        } by {
            if i < s.blocks.len() {
                assert(t.blocks[i] == s.blocks[i]);
            }
        }
    }
}

#[verifier::spinoff_prover]
#[verifier::rlimit(60)]
proof fn lemma_followed(ls: Seq<DiffLineView>, old: Seq<Seq<u8>>, new: Seq<Seq<u8>>)
    requires
        followed(ls, old, new) is Some,
        old.len() < u64::MAX - 1,
        new.len() < u64::MAX - 1,
    ensures
        in_step(line_units::diff_state(ls), followed(ls, old, new)->0, old, new),
    decreases ls.len(),
{
    let st = line_units::diff_state(ls);
    if ls.len() == 0 {
        assert(new.subrange(0, 0) =~= seq![]);
        assert(old.subrange(0, 0) =~= seq![]);
        assert(new.take(0) =~= seq![]);
        assert(mirror::rewritten(old, st.blocks, 0) + old.subrange(0, 0) =~= new.take(0));
    } else {
        lemma_followed(ls.drop_last(), old, new);
        let s = line_units::diff_state(ls.drop_last());
        let r = followed(ls.drop_last(), old, new)->0;
        let l = ls.last();
        let o = line_at(l.old_lineno, r.old);
        let n = line_at(l.new_lineno, r.new);
        let c = r.old - s.old_len;
        let d = r.new - s.new_lines.len();
        if l.origin == ' ' {
            lemma_flush(s, r, old, new);
            let f = line_units::diff_flush(s);
            let done = mirror::reached(f.blocks, 0);
            let w = mirror::rewritten(old, f.blocks, 0);
            mirror::lemma_after_blocks(old, f.blocks, 0);
            assert(old.subrange(done, o + 1) =~= old.subrange(done, r.old) + old.subrange(
                r.old,
                o + 1,
            ));
            assert(new.take(n + 1) =~= new.take(r.new) + new.subrange(r.new, n + 1));
            assert(w + old.subrange(done, o + 1) =~= (w + old.subrange(done, r.old))
                + old.subrange(r.old, o + 1));
            assert(new.subrange(n + 1, n + 1) =~= seq![]);
            assert(st.new_lines =~= new.subrange(n + 1, n + 1));
        } else if l.origin == '-' {
            assert(c == o + 1 - st.old_len);
        } else if l.origin == '+' {
            assert(new.subrange(d, n + 1) =~= s.new_lines.push(new[n]));
        }
    }
}

/// The blocks that are read from a diff are right: put in place of their old
/// lines, they turn the old lines of the file that the diff is of into the
/// new ones. They lie in order with lines between them, and what each brings
/// are the new lines of its number.
pub proof fn diff_blocks_lead_to_the_new_lines(
    ls: Seq<DiffLineView>,
    old: Seq<Seq<u8>>,
    new: Seq<Seq<u8>>,
)
    requires
        describes(ls, old, new),
        old.len() < u64::MAX - 1,
        new.len() < u64::MAX - 1,
    ensures
        ({
            let bs = line_units::diff_blocks(ls);
            &&& line_units::after_blocks(old, bs, 0) == new
            &&& mirror::in_order(bs, 0, old.len())
            &&& apart(bs)
            &&& numbered_in(bs, new)
        }),
{
    let r = followed(ls, old, new)->0;
    let s = line_units::diff_state(ls);
    lemma_followed(ls, old, new);
    lemma_flush(s, r, old, new);
    let bs = line_units::diff_blocks(ls);
    mirror::lemma_after_blocks(old, bs, 0);
    let done = mirror::reached(bs, 0);
    let w = mirror::rewritten(old, bs, 0);
    assert(old.skip(done) =~= old.subrange(done, r.old) + old.skip(r.old));
    assert(w + old.skip(done) =~= (w + old.subrange(done, r.old)) + old.skip(r.old));
    assert(new =~= new.take(r.new) + new.skip(r.new));
}

/// A line in the graph of a file: its node, the edge that leads to it, with
/// the change that brought the edge, and what it holds.
pub struct Spot {
    pub node: GraphNode,
    pub from: Position,
    pub by: Option<ContentHash>,
    pub flag: EdgeFlags,
    pub content: Seq<u8>,
}

/// Where a spot starts.
pub open spec fn spot_start(s: Spot) -> Position {
    Position { change: s.node.change, pos: s.node.start }
}

/// Where a spot ends.
pub open spec fn spot_end(s: Spot) -> Position {
    Position { change: s.node.change, pos: s.node.end }
}

/// Whether the edge to a spot is a line's and was not deleted.
pub open spec fn alive(s: Spot) -> bool {
    s.flag.block && !s.flag.deleted
}

/// The lines that are alive in a graph, in order.
pub open spec fn live_lines(g: Seq<Spot>) -> Seq<Seq<u8>> {
    g.filter(|s: Spot| alive(s)).map_values(|s: Spot| s.content)
}

/// The graph of an indexed file: its lines in order, each hanging on the one
/// before it, the first on the inode.
pub open spec fn graph_of(f: IndexedFileView) -> Seq<Spot> {
    Seq::new(
        f.lines.len(),
        |k: int|
            Spot {
                node: GraphNode {
                    change: Some(f.lines[k].change),
                    start: f.lines[k].start,
                    end: f.lines[k].end,
                },
                from: if k == 0 {
                    f.inode_pos
                } else {
                    Position { change: Some(f.lines[k - 1].change), pos: f.lines[k - 1].end }
                },
                by: Some(f.lines[k].incoming_by),
                flag: EdgeFlags { folder: false, block: true, deleted: false },
                content: f.lines[k].content,
            },
    )
}

/// Whether the lines of an indexed file have places of their own: no two end
/// at the same position, and none at the inode.
pub open spec fn well_placed(f: IndexedFileView) -> bool {
    &&& f.inode_pos.change is Some
    &&& forall|i: int|
        0 <= i < f.lines.len() ==> f.inode_pos != (Position {
            change: Some((#[trigger] f.lines[i]).change),
            pos: f.lines[i].end,
        })
    &&& forall|i: int, j: int|
        0 <= i < j < f.lines.len() ==> (#[trigger] f.lines[i]).change != (
        #[trigger] f.lines[j]).change || f.lines[i].end != f.lines[j].end
}

/// The graph after one edge is changed: that from this position to this node,
/// brought by this change, with these flags, and no other.
pub open spec fn marked(g: Seq<Spot>, e: NewEdge) -> Seq<Spot> {
    g.map_values(
        |s: Spot|
            if s.node == e.to && s.from == e.from && s.by == e.introduced_by && s.flag
                == e.previous {
                Spot { flag: e.flag, ..s }
            } else {
                s
            },
    )
}

/// The graph after a list of edges is changed, in turn.
pub open spec fn marked_all(g: Seq<Spot>, es: Seq<NewEdge>) -> Seq<Spot>
    decreases es.len(),
{
    if es.len() == 0 {
        g
    } else {
        marked(marked_all(g, es.drop_last()), es.last())
    }
}

/// The last spot that ends at a position.
pub open spec fn last_ending(g: Seq<Spot>, p: Position) -> Option<int>
    decreases g.len(),
{
    if g.len() == 0 {
        None
    } else if spot_end(g.last()) == p {
        Some(g.len() - 1)
    } else {
        last_ending(g.drop_last(), p)
    }
}

/// The first spot from `i` on that is alive.
pub open spec fn next_alive(g: Seq<Spot>, i: int) -> Option<Spot>
    decreases g.len() - i,
{
    if i < 0 || i >= g.len() {
        None
    } else if alive(g[i]) {
        Some(g[i])
    } else {
        next_alive(g, i + 1)
    }
}

/// The graph of a file after new content is hung directly behind what it
/// names as its predecessor; what it names as its successor has to be the
/// line that then follows. The content is what the change holds there.
pub open spec fn hung(
    g: Seq<Spot>,
    ins: graph::InsertionView,
    inode: Position,
    contents: Seq<u8>,
) -> Option<Seq<Spot>> {
    if ins.inode != inode {
        Some(g)
    } else if ins.predecessors.len() != 1 || ins.start > ins.end || ins.end > contents.len() {
        None
    } else {
        let p = ins.predecessors[0];
        let at = if p == inode {
            Some(0int)
        } else {
            match last_ending(g, p) {
                Some(k) => Some(k + 1),
                None => None,
            }
        };
        match at {
            None => None,
            Some(k) => {
                let fits = ins.successors.len() == 0 || ins.successors.len() == 1 && (next_alive(
                    g,
                    k,
                ) matches Some(s) && spot_start(s) == ins.successors[0]);
                if fits {
                    Some(
                        g.insert(
                            k,
                            Spot {
                                node: GraphNode { change: None, start: ins.start, end: ins.end },
                                from: p,
                                by: None,
                                flag: ins.flag,
                                content: contents.subrange(ins.start as int, ins.end as int),
                            },
                        ),
                    )
                } else {
                    None
                }
            },
        }
    }
}

/// The graph of a file after the edges of an update are changed, where the
/// update is about the file.
pub open spec fn updated(g: Seq<Spot>, u: graph::EdgeUpdateView, inode: Position) -> Seq<Spot> {
    if u.inode == inode {
        marked_all(g, u.edges)
    } else {
        g
    }
}

/// The graph of a file after one operation of a change.
pub open spec fn stepped(
    g: Seq<Spot>,
    op: graph::GraphOpView,
    inode: Position,
    contents: Seq<u8>,
) -> Option<Seq<Spot>> {
    match op {
        graph::GraphOpView::Edit { change, .. } => match change {
            graph::AtomView::Insertion(i) => hung(g, i, inode, contents),
            graph::AtomView::EdgeUpdate(u) => Some(updated(g, u, inode)),
        },
        graph::GraphOpView::Replacement { change, replacement, .. } => hung(
            updated(g, change, inode),
            replacement,
            inode,
            contents,
        ),
        graph::GraphOpView::FileAdd { contents: c, .. } => match c {
            Some(i) => hung(g, i, inode, contents),
            None => Some(g),
        },
        _ => Some(g),
    }
}

/// The graph of a file after the operations of a change, in turn; none where
/// one of them does not fit it.
pub open spec fn replayed(
    g: Seq<Spot>,
    ops: Seq<graph::GraphOpView>,
    inode: Position,
    contents: Seq<u8>,
) -> Option<Seq<Spot>>
    decreases ops.len(),
{
    if ops.len() == 0 {
        Some(g)
    } else {
        match replayed(g, ops.drop_last(), inode, contents) {
            Some(h) => stepped(h, ops.last(), inode, contents),
            None => None,
        }
    }
}

/// Replaying a list of operations is replaying its parts in turn.
pub proof fn lemma_replayed_on(
    g: Seq<Spot>,
    a: Seq<graph::GraphOpView>,
    b: Seq<graph::GraphOpView>,
    inode: Position,
    contents: Seq<u8>,
)
    ensures
        replayed(g, a + b, inode, contents) == (match replayed(g, a, inode, contents) {
            Some(h) => replayed(h, b, inode, contents),
            None => None,
        }),
    decreases b.len(),
{
    if b.len() == 0 {
        assert(a + b =~= a);
    } else {
        assert((a + b).drop_last() =~= a + b.drop_last());
        lemma_replayed_on(g, a, b.drop_last(), inode, contents);
    }
}

proof fn lemma_live_add(a: Seq<Spot>, b: Seq<Spot>)
    ensures
        live_lines(a + b) == live_lines(a) + live_lines(b),
{
    let f = |s: Spot| alive(s);
    Seq::filter_distributes_over_add(a, b, f);
    assert(live_lines(a + b) =~= live_lines(a) + live_lines(b));
}

/// Where every spot is alive, every one is a line.
pub proof fn lemma_all_live(g: Seq<Spot>)
    requires
        forall|k: int| 0 <= k < g.len() ==> alive(#[trigger] g[k]),
    ensures
        live_lines(g) == g.map_values(|s: Spot| s.content),
    decreases g.len(),
{
    reveal(Seq::filter);
    let f = |s: Spot| alive(s);
    if g.len() > 0 {
        assert forall|k: int| 0 <= k < g.drop_last().len() implies alive(
            #[trigger] g.drop_last()[k],
        ) by {
            assert(g.drop_last()[k] == g[k]);
        }
        lemma_all_live(g.drop_last());
        assert(alive(g[g.len() - 1]));
        assert(g.filter(f) == g.drop_last().filter(f).push(g.last()));
        assert(live_lines(g) =~= live_lines(g.drop_last()).push(g.last().content));
    }
    assert(live_lines(g) =~= g.map_values(|s: Spot| s.content));
}

/// Where no spot is alive, there is no line.
pub proof fn lemma_none_live(g: Seq<Spot>)
    requires
        forall|k: int| 0 <= k < g.len() ==> !alive(#[trigger] g[k]),
    ensures
        live_lines(g) == Seq::<Seq<u8>>::empty(),
    decreases g.len(),
{
    reveal(Seq::filter);
    if g.len() > 0 {
        assert forall|k: int| 0 <= k < g.drop_last().len() implies !alive(
            #[trigger] g.drop_last()[k],
        ) by {
            assert(g.drop_last()[k] == g[k]);
        }
        lemma_none_live(g.drop_last());
        assert(!alive(g[g.len() - 1]));
    }
    assert(live_lines(g) =~= Seq::<Seq<u8>>::empty());
}

proof fn lemma_last_ending(g: Seq<Spot>, p: Position, k: int)
    requires
        0 <= k < g.len(),
        spot_end(g[k]) == p,
        forall|j: int| k < j < g.len() ==> spot_end(#[trigger] g[j]) != p,
    ensures
        last_ending(g, p) == Some(k),
    decreases g.len(),
{
    if k < g.len() - 1 {
        assert(spot_end(g[g.len() - 1]) != p);
        assert forall|j: int| k < j < g.drop_last().len() implies spot_end(
            #[trigger] g.drop_last()[j],
        ) != p by {
            assert(g.drop_last()[j] == g[j]);
        }
        lemma_last_ending(g.drop_last(), p, k);
    }
}

proof fn lemma_next_alive(g: Seq<Spot>, i: int, k: int)
    requires
        0 <= i <= k < g.len(),
        alive(g[k]),
        forall|j: int| i <= j < k ==> !alive(#[trigger] g[j]),
    ensures
        next_alive(g, i) == Some(g[k]),
    decreases k - i,
{
    if i < k {
        assert(!alive(g[i]));
        lemma_next_alive(g, i + 1, k);
    }
}

/// The lines `a` up to `e` of a file, deleted.
spec fn gone(f: IndexedFileView, a: int, e: int) -> Seq<Spot> {
    Seq::new(
        (e - a) as nat,
        |k: int|
            Spot {
                flag: EdgeFlags { folder: false, block: true, deleted: true },
                ..graph_of(f)[a + k]
            },
    )
}

/// Whether no spot ends where a line of a file from `done` on does.
spec fn clear_of(h: Seq<Spot>, f: IndexedFileView, done: int) -> bool {
    forall|k: int, j: int|
        0 <= k < h.len() && done <= j < f.lines.len() ==> spot_end(#[trigger] h[k]) != spot_end(
            #[trigger] graph_of(f)[j],
        )
}

proof fn lemma_marks(h: Seq<Spot>, f: IndexedFileView, done: int, a: int, e: int)
    requires
        well_placed(f),
        0 <= done <= a <= e <= f.lines.len(),
        clear_of(h, f, done),
    ensures
        marked_all(h + graph_of(f).skip(done), graph_first::deletion_edges(f, a, e)) == h
            + graph_of(f).subrange(done, a) + gone(f, a, e) + graph_of(f).skip(e),
    decreases e - a,
{
    let all = graph_of(f);
    let es = graph_first::deletion_edges(f, a, e);
    let before = h + all.skip(done);
    let want = h + all.subrange(done, a) + gone(f, a, e) + all.skip(e);
    if e == a {
        assert(want =~= before);
    } else {
        lemma_marks(h, f, done, a, e - 1);
        assert(es.drop_last() =~= graph_first::deletion_edges(f, a, e - 1));
        let prev = h + all.subrange(done, a) + gone(f, a, e - 1) + all.skip(e - 1);
        let edge = es.last();
        let at = h.len() + (e - 1 - done);
        assert(prev[at] == all[e - 1]);
        let next = marked(prev, edge);
        assert forall|k: int| 0 <= k < prev.len() implies #[trigger] next[k] == want[k] by {
            if k < h.len() {
                assert(spot_end(h[k]) != spot_end(all[e - 1]));
            } else if k < at {
                let j = done + k - h.len();
                assert(prev[k].node == all[j].node);
                assert(f.lines[j].change != f.lines[e - 1].change || f.lines[j].end
                    != f.lines[e - 1].end);
            } else if k > at {
                let j = done + k - h.len();
                assert(prev[k] == all[j]);
                assert(f.lines[e - 1].change != f.lines[j].change || f.lines[e - 1].end
                    != f.lines[j].end);
            }
        }
        assert(next =~= want);
    }
}

/// The new lines of a run as spots, the first behind `pred`, each other one
/// behind the one before it.
pub open spec fn fresh(
    pred: Position,
    ranges: Seq<(u64, u64)>,
    lines: Seq<Seq<u8>>,
) -> Seq<Spot> {
    Seq::new(
        lines.len(),
        |k: int|
            Spot {
                node: GraphNode { change: None, start: ranges[k].0, end: ranges[k].1 },
                from: if k == 0 {
                    pred
                } else {
                    Position { change: None, pos: ranges[k - 1].1 }
                },
                by: None,
                flag: EdgeFlags { folder: false, block: true, deleted: false },
                content: lines[k],
            },
    )
}

/// The graph of a file once the first `k` new lines of a block hang in their
/// place.
spec fn in_between(
    h: Seq<Spot>,
    f: IndexedFileView,
    done: int,
    a: int,
    e: int,
    new: Seq<Spot>,
    k: int,
) -> Seq<Spot> {
    h + graph_of(f).subrange(done, a) + new.take(k) + gone(f, a, e) + graph_of(f).skip(e)
}

/// One more new line hangs in its place.
proof fn lemma_hung(
    h: Seq<Spot>,
    f: IndexedFileView,
    done: int,
    a: int,
    e: int,
    new: Seq<Spot>,
    k: int,
    ins: graph::InsertionView,
    contents: Seq<u8>,
)
    requires
        well_placed(f),
        0 <= done <= a <= e <= f.lines.len(),
        a == 0 ==> h.len() == 0,
        a > 0 ==> done < a,
        0 <= k < new.len(),
        forall|j: int| 0 <= j < new.len() ==> (#[trigger] new[j]).node.change is None,
        ins.inode == f.inode_pos,
        ins.predecessors == seq![
            if k > 0 {
                spot_end(new[k - 1])
            } else if a == 0 {
                f.inode_pos
            } else {
                spot_end(graph_of(f)[a - 1])
            },
        ],
        ins.successors == graph_first::opt_seq(
            if k + 1 == new.len() {
                graph_first::position_at(f, e)
            } else {
                None
            },
        ),
        ins.start <= ins.end <= contents.len(),
        new[k] == (Spot {
            node: GraphNode { change: None, start: ins.start, end: ins.end },
            from: ins.predecessors[0],
            by: None,
            flag: ins.flag,
            content: contents.subrange(ins.start as int, ins.end as int),
        }),
    ensures
        hung(in_between(h, f, done, a, e, new, k), ins, f.inode_pos, contents) == Some(
            in_between(h, f, done, a, e, new, k + 1),
        ),
{
    let all = graph_of(f);
    let g = in_between(h, f, done, a, e, new, k);
    let at = h.len() + (a - done) + k;
    let p = ins.predecessors[0];
    if k > 0 || a > 0 {
        let i = at - 1;
        if k > 0 {
            assert(g[i] == new[k - 1]);
            assert(new[k - 1].node.change is None);
        } else {
            assert(g[i] == all[a - 1]);
            assert(f.inode_pos != spot_end(all[a - 1])) by {
                assert(f.lines[a - 1] == f.lines[a - 1]);
            }
        }
        assert(p != f.inode_pos);
        assert forall|j: int| i < j < g.len() implies spot_end(#[trigger] g[j]) != p by {
            let l = j - at + a;
            assert(g[j].node == all[l].node);
            if k == 0 {
                assert(f.lines[a - 1].change != f.lines[l].change || f.lines[a - 1].end
                    != f.lines[l].end);
            }
        }
        lemma_last_ending(g, p, i);
    }
    if k + 1 == new.len() && e < f.lines.len() {
        let l = at + (e - a);
        assert(g[l] == all[e]);
        assert forall|j: int| at <= j < l implies !alive(#[trigger] g[j]) by {
            assert(g[j] == gone(f, a, e)[j - at]);
        }
        lemma_next_alive(g, at, l);
    }
    assert(g.insert(at, new[k]) =~= in_between(h, f, done, a, e, new, k + 1));
}

/// The operations of a placed block.
spec fn block_ops(
    path: Seq<char>,
    f: IndexedFileView,
    b: BlockView,
    a: int,
    e: int,
    ranges: Seq<(u64, u64)>,
    encoding: Option<Encoding>,
) -> Seq<graph::GraphOpView> {
    seq![graph_first::first_op(path, f, b, a, e, ranges, encoding)] + graph_first::chain_ops(
        path,
        ranges,
        f.inode_pos,
        b.new_start,
        graph_first::position_at(f, e),
        encoding,
    )
}

/// The operations of a block put its new lines in place of its old ones.
proof fn lemma_block_replayed(
    h: Seq<Spot>,
    path: Seq<char>,
    f: IndexedFileView,
    done: int,
    b: BlockView,
    before: Seq<u8>,
    behind: Seq<u8>,
    encoding: Option<Encoding>,
)
    requires
        well_placed(f),
        clear_of(h, f, done),
        0 <= done <= mirror::block_start(b),
        block_end(b) <= f.lines.len(),
        mirror::block_start(b) == 0 ==> h.len() == 0,
        mirror::block_start(b) > 0 ==> done < mirror::block_start(b),
        before.len() + line_units::all_bytes(b.new_lines).len() <= u64::MAX,
    ensures
        ({
            let a = mirror::block_start(b);
            let e = block_end(b);
            let ranges = graph_first::ranges_from(before.len(), b.new_lines);
            let new = fresh(graph_first::position_before(f, a), ranges, b.new_lines);
            let contents = before + line_units::all_bytes(b.new_lines) + behind;
            replayed(
                h + graph_of(f).skip(done),
                block_ops(path, f, b, a, e, ranges, encoding),
                f.inode_pos,
                contents,
            ) == Some(h + graph_of(f).subrange(done, a) + new + gone(f, a, e) + graph_of(f).skip(e))
        }),
{
    let a = mirror::block_start(b);
    let e = block_end(b);
    let ranges = graph_first::ranges_from(before.len(), b.new_lines);
    let pred = graph_first::position_before(f, a);
    let new = fresh(pred, ranges, b.new_lines);
    let contents = before + line_units::all_bytes(b.new_lines) + behind;
    let ops = block_ops(path, f, b, a, e, ranges, encoding);
    let g = h + graph_of(f).skip(done);
    let n = b.new_lines.len() as int;
    mirror::lemma_ranges_len(before.len(), b.new_lines);
    lemma_marks(h, f, done, a, e);
    assert(in_between(h, f, done, a, e, new, 0) =~= h + graph_of(f).subrange(done, a) + gone(
        f,
        a,
        e,
    ) + graph_of(f).skip(e));
    if a == e {
        assert(in_between(h, f, done, a, e, new, 0) =~= g);
    }
    let first = graph_first::first_op(path, f, b, a, e, ranges, encoding);
    if n == 0 {
        assert(ops =~= seq![first]);
        assert(ops.drop_last() =~= seq![]);
        reveal_with_fuel(replayed, 2);
        assert(h + graph_of(f).subrange(done, a) + new + gone(f, a, e) + graph_of(f).skip(e)
            =~= in_between(h, f, done, a, e, new, 0));
    } else {
        assert forall|k: int| 0 < k <= n implies #[trigger] replayed(
            g,
            ops.take(k),
            f.inode_pos,
            contents,
        ) == Some(in_between(h, f, done, a, e, new, k)) by {
            lemma_lines_hung(h, path, f, done, b, before, behind, encoding, k);
        }
        assert(ops.take(n) =~= ops);
        assert(replayed(g, ops.take(n), f.inode_pos, contents) == Some(
            in_between(h, f, done, a, e, new, n),
        ));
        assert(new.take(n) =~= new);
    }
}

proof fn lemma_lines_hung(
    h: Seq<Spot>,
    path: Seq<char>,
    f: IndexedFileView,
    done: int,
    b: BlockView,
    before: Seq<u8>,
    behind: Seq<u8>,
    encoding: Option<Encoding>,
    k: int,
)
    requires
        well_placed(f),
        clear_of(h, f, done),
        0 <= done <= mirror::block_start(b),
        block_end(b) <= f.lines.len(),
        mirror::block_start(b) == 0 ==> h.len() == 0,
        mirror::block_start(b) > 0 ==> done < mirror::block_start(b),
        before.len() + line_units::all_bytes(b.new_lines).len() <= u64::MAX,
        0 < k <= b.new_lines.len(),
    ensures
        ({
            let a = mirror::block_start(b);
            let e = block_end(b);
            let ranges = graph_first::ranges_from(before.len(), b.new_lines);
            let new = fresh(graph_first::position_before(f, a), ranges, b.new_lines);
            let contents = before + line_units::all_bytes(b.new_lines) + behind;
            replayed(
                h + graph_of(f).skip(done),
                block_ops(path, f, b, a, e, ranges, encoding).take(k),
                f.inode_pos,
                contents,
            ) == Some(in_between(h, f, done, a, e, new, k))
        }),
    decreases k,
{
    let a = mirror::block_start(b);
    let e = block_end(b);
    let ranges = graph_first::ranges_from(before.len(), b.new_lines);
    let pred = graph_first::position_before(f, a);
    let new = fresh(pred, ranges, b.new_lines);
    let contents = before + line_units::all_bytes(b.new_lines) + behind;
    let ops = block_ops(path, f, b, a, e, ranges, encoding);
    let g = h + graph_of(f).skip(done);
    let i = k - 1;
    mirror::lemma_ranges_len(before.len(), b.new_lines);
    mirror::ranges_hold_their_lines(before, b.new_lines, behind, i);
    let ins = graph_first::line_insertion(
        if i == 0 {
            pred
        } else {
            graph_first::here(ranges[i - 1].1)
        },
        if k == b.new_lines.len() {
            graph_first::position_at(f, e)
        } else {
            None
        },
        ranges[i],
        f.inode_pos,
    );
    assert(ops.take(k).drop_last() =~= ops.take(i));
    assert(ops.take(k).last() == ops[i]);
    lemma_hung(h, f, done, a, e, new, i, ins, contents);
    if i == 0 {
        assert(ops.take(0) =~= seq![]);
        lemma_marks(h, f, done, a, e);
        assert(in_between(h, f, done, a, e, new, 0) =~= h + graph_of(f).subrange(done, a) + gone(
            f,
            a,
            e,
        ) + graph_of(f).skip(e));
        if a == e {
            assert(in_between(h, f, done, a, e, new, 0) =~= g);
        }
    } else {
        lemma_lines_hung(h, path, f, done, b, before, behind, encoding, i);
        assert(ops[i] == graph_first::chain_op(
            path,
            ranges,
            f.inode_pos,
            b.new_start,
            graph_first::position_at(f, e),
            encoding,
            i,
        ));
    }
}

/// What the replayed operations of blocks leave before the old lines that no
/// block has reached.
#[verifier::spinoff_prover]
#[verifier::rlimit(60)]
proof fn lemma_blocks_replayed(
    s: BuildView,
    file: commit::ParsedFileView,
    f: IndexedFileView,
    bs: Seq<BlockView>,
    encoding: Option<Encoding>,
    kind: ReplacementKind,
    behind: Seq<u8>,
) -> (h: Seq<Spot>)
    requires
        well_placed(f),
        f.lines.len() < u64::MAX,
        mirror::in_order(bs, 0, f.lines.len()),
        apart(bs),
        graph_first::blocks_applied(s, file, f, bs, encoding, kind).0.contents.len() <= u64::MAX,
    ensures
        ({
            let t = graph_first::blocks_applied(s, file, f, bs, encoding, kind).0;
            let done = mirror::reached(bs, 0);
            let old = line_index::line_contents(f.lines);
            &&& 0 <= done <= f.lines.len()
            &&& t.hunks.len() >= s.hunks.len()
            &&& t.hunks.take(s.hunks.len() as int) == s.hunks
            &&& replayed(
                graph_of(f),
                t.hunks.skip(s.hunks.len() as int),
                f.inode_pos,
                t.contents + behind,
            ) == Some(h + graph_of(f).skip(done))
            &&& live_lines(h) == mirror::rewritten(old, bs, 0)
            &&& clear_of(h, f, done)
            &&& bs.len() == 0 ==> h.len() == 0
            &&& bs.len() > 0 ==> done == block_end(bs.last())
        }),
    decreases bs.len(),
{
    let t = graph_first::blocks_applied(s, file, f, bs, encoding, kind).0;
    let old = line_index::line_contents(f.lines);
    let all = graph_of(f);
    let inode = f.inode_pos;
    let m = s.hunks.len() as int;
    if bs.len() == 0 {
        let h = Seq::<Spot>::empty();
        assert(t.hunks.skip(m) =~= seq![]);
        assert(t.hunks.take(m) =~= s.hunks);
        assert(h + all.skip(0) =~= all);
        lemma_none_live(h);
        h
    } else {
        let front = bs.drop_last();
        let b = bs.last();
        assert(bs =~= front.push(b));
        mirror::lemma_further_block(old, front, b, 0);
        assert(apart(front)) by {
            assert forall|i: int, j: int| 0 <= i < j < front.len() implies block_end(
                #[trigger] front[i],
            ) < mirror::block_start(#[trigger] front[j]) by {
                assert(front[i] == bs[i] && front[j] == bs[j]);
            }
        }
        mirror::lemma_placed(b, f.lines.len(), kind);
        let u = graph_first::blocks_applied(s, file, f, front, encoding, kind).0;
        let a = mirror::block_start(b);
        let e = block_end(b);
        let ranges = graph_first::ranges_from(u.contents.len(), b.new_lines);
        assert(t == graph_first::block_applied(u, file.path, f, b, a, e, encoding));
        let more = line_units::all_bytes(b.new_lines);
        assert(t.contents == u.contents + more);
        let h = lemma_blocks_replayed(s, file, f, front, encoding, kind, more + behind);
        let done = mirror::reached(front, 0);
        if front.len() > 0 {
            assert(bs[front.len() - 1] == front.last());
            assert(block_end(bs[front.len() - 1]) < mirror::block_start(bs[bs.len() - 1]));
        }
        let ops = block_ops(file.path, f, b, a, e, ranges, encoding);
        assert(t.hunks =~= u.hunks + ops);
        assert(t.hunks.skip(m) =~= u.hunks.skip(m) + ops);
        assert(t.hunks.take(m) =~= u.hunks.take(m));
        assert(u.contents + (more + behind) =~= t.contents + behind);
        lemma_block_replayed(h, file.path, f, done, b, u.contents, behind, encoding);
        lemma_replayed_on(all, u.hunks.skip(m), ops, inode, t.contents + behind);
        let new = fresh(graph_first::position_before(f, a), ranges, b.new_lines);
        let mid = all.subrange(done, a);
        let dead = gone(f, a, e);
        let r = h + mid + new + dead;
        lemma_live_add(h + mid + new, dead);
        lemma_live_add(h + mid, new);
        lemma_live_add(h, mid);
        lemma_all_live(mid);
        lemma_all_live(new);
        lemma_none_live(dead);
        assert(live_lines(mid) =~= old.subrange(done, a));
        assert(live_lines(new) =~= b.new_lines);
        assert(live_lines(r) =~= mirror::rewritten(old, bs, 0));
        assert(clear_of(r, f, e)) by {
            assert forall|k: int, j: int| 0 <= k < r.len() && e <= j < f.lines.len() implies spot_end(
                #[trigger] r[k],
            ) != spot_end(#[trigger] all[j]) by {
                let i1 = h.len() as int;
                let i2 = i1 + mid.len();
                let i3 = i2 + new.len();
                if k < i1 {
                    assert(r[k] == h[k]);
                } else if k < i2 {
                    let l = done + k - i1;
                    assert(r[k] == all[l]);
                    assert(f.lines[l].change != f.lines[j].change || f.lines[l].end
                        != f.lines[j].end);
                } else if k < i3 {
                    assert(r[k] == new[k - i2]);
                } else {
                    let l = a + k - i3;
                    assert(r[k].node == all[l].node);
                    assert(f.lines[l].change != f.lines[j].change || f.lines[l].end
                        != f.lines[j].end);
                }
            }
        }
        r
    }
}

/// The recorded change does to the graph of a file what the blocks say:
/// replayed, its operations delete exactly the old lines of the blocks and
/// hang the new ones in their place, so that the lines that are alive are
/// those that the blocks lead to, and those that the pending update of the
/// index leads to.
pub proof fn recorded_blocks_lead_to_the_new_lines(
    s: BuildView,
    file: commit::ParsedFileView,
    f: IndexedFileView,
    bs: Seq<BlockView>,
    encoding: Option<Encoding>,
    kind: ReplacementKind,
    behind: Seq<u8>,
    hash: ContentHash,
)
    requires
        well_placed(f),
        f.lines.len() < u64::MAX,
        mirror::in_order(bs, 0, f.lines.len()),
        apart(bs),
        graph_first::blocks_applied(s, file, f, bs, encoding, kind).0.contents.len() <= u64::MAX,
    ensures
        ({
            let (t, reps) = graph_first::blocks_applied(s, file, f, bs, encoding, kind);
            let new = line_units::after_blocks(line_index::line_contents(f.lines), bs, 0);
            &&& t.hunks.len() >= s.hunks.len()
            &&& t.hunks.take(s.hunks.len() as int) == s.hunks
            &&& replayed(
                graph_of(f),
                t.hunks.skip(s.hunks.len() as int),
                f.inode_pos,
                t.contents + behind,
            ) matches Some(g) && live_lines(g) == new
            &&& line_index::replaced_lines(f.lines, hash, reps) matches Some(ls)
                && line_index::line_contents(ls) == new
        }),
{
    let old = line_index::line_contents(f.lines);
    let h = lemma_blocks_replayed(s, file, f, bs, encoding, kind, behind);
    let done = mirror::reached(bs, 0);
    mirror::lemma_after_blocks(old, bs, 0);
    mirror::replacements_follow_the_blocks(s, file, f, bs, encoding, kind, hash);
    let rest = graph_of(f).skip(done);
    lemma_live_add(h, rest);
    lemma_all_live(rest);
    assert(live_lines(rest) =~= old.skip(done));
}

/// The deletion of every line of a file leaves none alive.
pub proof fn lemma_all_gone(f: IndexedFileView)
    requires
        well_placed(f),
    ensures
        live_lines(
            marked_all(graph_of(f), graph_first::deletion_edges(f, 0, f.lines.len() as int)),
        ) == Seq::<Seq<u8>>::empty(),
{
    let n = f.lines.len() as int;
    let h = Seq::<Spot>::empty();
    let all = graph_of(f);
    lemma_marks(h, f, 0, 0, n);
    assert(h + all.skip(0) =~= all);
    assert(h + all.subrange(0, 0) + gone(f, 0, n) + all.skip(n) =~= gone(f, 0, n));
    lemma_none_live(gone(f, 0, n));
}

} // verus!
