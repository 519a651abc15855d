//! What of a Git history an import collects, and where that history ends.
use crate::error::{git_error, CliError};
use crate::sequence;
use crate::sequence::{sequence_commits_deterministically, CommitNode};
use crate::text;
use crate::text::{clone_texts, contains_text, lines, reversed, same_text, starts_with, trim};
use vstd::prelude::*;

verus! {

/// A walk from a tip to the commits already imported.
pub struct FrontierWalk {
    pub imported: Vec<String>,
    pub queue: Vec<String>,
    /// The first entry of the queue that was not taken yet.
    pub head: usize,
    pub collected: Vec<String>,
    /// The parents of the collected commits.
    pub parents: Vec<Vec<String>>,
}

/// A `FrontierWalk` as a value.
#[verifier::ext_equal]
pub struct WalkView {
    pub imported: Seq<Seq<char>>,
    pub queue: Seq<Seq<char>>,
    pub collected: Seq<Seq<char>>,
    pub parents: Seq<Seq<Seq<char>>>,
}

impl View for FrontierWalk {
    type V = WalkView;

    open spec fn view(&self) -> WalkView {
        WalkView {
            imported: text::texts(self.imported@),
            queue: text::texts(self.queue@).skip(self.head as int),
            collected: text::texts(self.collected@),
            parents: parent_texts(self.parents@),
        }
    }
}

/// The ids in lists of parents.
pub open spec fn parent_texts(v: Seq<Vec<String>>) -> Seq<Seq<Seq<char>>> {
    v.map_values(|ps: Vec<String>| text::texts(ps@))
}

impl WalkView {
    /// Whether a commit needs no visit: it is imported, or was visited.
    pub open spec fn knows(self, oid: Seq<char>) -> bool {
        self.imported.contains(oid) || self.collected.contains(oid)
    }

    /// Every collected commit is new, and was collected once; each has its
    /// list of parents.
    pub open spec fn sound(self) -> bool {
        &&& self.parents.len() == self.collected.len()
        &&& self.collected.no_duplicates()
        &&& forall|i: int|
            0 <= i < self.collected.len() ==> !self.imported.contains(#[trigger] self.collected[i])
    }
}

/// The walk before any commit was visited.
pub open spec fn walk_start(imported: Seq<Seq<char>>, tip: Seq<char>) -> WalkView {
    WalkView { imported, queue: seq![tip], collected: seq![], parents: seq![] }
}

/// The walk when the known commits at the front of its queue are dropped.
pub open spec fn past_known(w: WalkView) -> WalkView
    decreases w.queue.len(),
{
    if w.queue.len() > 0 && w.knows(w.queue[0]) {
        past_known(WalkView { queue: w.queue.drop_first(), ..w })
    } else {
        w
    }
}

/// The next commit to visit, and the walk after it was taken.
pub open spec fn visit(w: WalkView) -> (Option<Seq<char>>, WalkView) {
    let p = past_known(w);
    if p.queue.len() == 0 {
        (None, p)
    } else {
        (
            Some(p.queue[0]),
            WalkView {
                queue: p.queue.drop_first(),
                collected: p.collected.push(p.queue[0]),
                parents: p.parents.push(seq![]),
                ..p
            },
        )
    }
}

/// The walk after the parents of the commit that was visited last are queued
/// and noted.
pub open spec fn with_parents(w: WalkView, parents: Seq<Seq<char>>) -> WalkView {
    WalkView {
        queue: w.queue + parents,
        parents: if w.parents.len() == 0 {
            w.parents
        } else {
            w.parents.update(w.parents.len() - 1, w.parents.last() + parents)
        },
        ..w
    }
}

/// The collected commits, the last one first, each with its place in this
/// list as its time.
pub open spec fn walked(w: WalkView) -> Seq<sequence::NodeView> {
    let n = w.collected.len();
    Seq::new(
        n,
        |i: int|
            sequence::NodeView {
                oid: w.collected[n - 1 - i],
                committer_time: place_time(i),
                parents: w.parents[n - 1 - i],
            },
    )
}

/// A place in a list as a time.
pub open spec fn place_time(i: int) -> i64 {
    if i <= i64::MAX {
        i as i64
    } else {
        i64::MAX
    }
}

/// What a walk hands out: the commit collected last first, but every commit
/// behind its collected parents. Where the parents run in a circle there is
/// no such order, and the commits only come the last one first.
pub open spec fn walk_order(w: WalkView) -> Seq<Seq<char>> {
    let order = sequence::bridge_order(walked(w));
    if order.len() == w.collected.len() {
        order
    } else {
        w.collected.reverse()
    }
}

proof fn lemma_past_known(w: WalkView)
    ensures
        past_known(w).imported == w.imported,
        past_known(w).collected == w.collected,
        past_known(w).parents == w.parents,
        past_known(w).queue.len() > 0 ==> !w.knows(past_known(w).queue[0]),
        forall|o: Seq<char>|
            w.queue.contains(o) ==> #[trigger] past_known(w).queue.contains(o) || w.knows(o),
    decreases w.queue.len(),
{
    if w.queue.len() > 0 && w.knows(w.queue[0]) {
        let next = WalkView { queue: w.queue.drop_first(), ..w };
        lemma_past_known(next);
        assert forall|o: Seq<char>| w.queue.contains(o) implies #[trigger] past_known(
            w,
        ).queue.contains(o) || w.knows(o) by {
            let k: int = choose|k: int| 0 <= k < w.queue.len() && w.queue[k] == o;
            if k > 0 {
                assert(next.queue[k - 1] == o);
                assert(next.queue.contains(o));
                assert(next.knows(o) == w.knows(o));
            }
        }
    }
}

/// A commit that a walk takes is not imported and was not taken before.
pub proof fn visits_are_new(w: WalkView)
    requires
        w.sound(),
    ensures
        visit(w).1.sound(),
        visit(w).0 matches Some(o) ==> !w.knows(o),
{
    lemma_past_known(w);
    let p = past_known(w);
    if p.queue.len() > 0 {
        let c = visit(w).1.collected;
        assert forall|i: int, j: int| 0 <= i < c.len() && 0 <= j < c.len() && i != j implies c[i]
            != c[j] by {
            if i < w.collected.len() && j < w.collected.len() {
                assert(w.collected[i] != w.collected[j]);
            } else if i < w.collected.len() {
                assert(w.collected.contains(w.collected[i]));
            } else {
                assert(w.collected.contains(w.collected[j]));
            }
        }
        assert forall|i: int| 0 <= i < c.len() implies !w.imported.contains(#[trigger] c[i]) by {
            if i < w.collected.len() {
                assert(c[i] == w.collected[i]);
            }
        }
    }
}

/// Whether the noted parents of every collected commit are its parents.
pub open spec fn notes_parents(
    w: WalkView,
    parents: spec_fn(Seq<char>) -> Seq<Seq<char>>,
) -> bool {
    forall|i: int|
        0 <= i < w.collected.len() ==> #[trigger] w.parents[i] == parents(w.collected[i])
}

proof fn lemma_walked(w: WalkView)
    requires
        w.sound(),
    ensures
        sequence::distinct_commits(walked(w)),
        forall|o: Seq<char>|
            #[trigger] sequence::collected(walked(w), o) <==> w.collected.contains(o),
{
    let cs = walked(w);
    let n = w.collected.len();
    assert forall|o: Seq<char>| #[trigger] sequence::collected(cs, o) <==> w.collected.contains(
        o,
    ) by {
        if sequence::collected(cs, o) {
            let i: int = choose|i: int| 0 <= i < cs.len() && (#[trigger] cs[i]).oid == o;
            assert(w.collected[n - 1 - i] == o);
        }
        if w.collected.contains(o) {
            let k: int = choose|k: int| 0 <= k < n && w.collected[k] == o;
            assert(cs[n - 1 - k].oid == o);
        }
    }
}

/// A walk hands out every collected commit exactly once, and nothing that is
/// imported.
pub proof fn a_walk_hands_out_new_commits_once(w: WalkView)
    requires
        w.sound(),
    ensures
        walk_order(w).no_duplicates(),
        forall|o: Seq<char>| #[trigger] walk_order(w).contains(o) <==> w.collected.contains(o),
        forall|o: Seq<char>| #[trigger] walk_order(w).contains(o) ==> !w.imported.contains(o),
{
    let cs = walked(w);
    let r = w.collected.reverse();
    let n = w.collected.len();
    lemma_walked(w);
    if sequence::bridge_order(cs).len() == n {
        sequence::order_is_complete(cs);
        assert forall|o: Seq<char>| #[trigger] walk_order(w).contains(o) <==> w.collected.contains(
            o,
        ) by {
            assert(sequence::collected(cs, o) <==> w.collected.contains(o));
        }
    } else {
        assert forall|i: int, j: int| 0 <= i < n && 0 <= j < n && i != j implies r[i] != r[j] by {
            assert(w.collected[n - 1 - i] != w.collected[n - 1 - j]);
        }
        assert forall|o: Seq<char>| #[trigger] r.contains(o) <==> w.collected.contains(o) by {
            if r.contains(o) {
                let k: int = choose|k: int| 0 <= k < n && r[k] == o;
                assert(w.collected[n - 1 - k] == o);
            }
            if w.collected.contains(o) {
                let k: int = choose|k: int| 0 <= k < n && w.collected[k] == o;
                assert(r[n - 1 - k] == o);
            }
        }
    }
    assert forall|o: Seq<char>| #[trigger] walk_order(w).contains(o) implies !w.imported.contains(
        o,
    ) by {
        let k: int = choose|k: int| 0 <= k < n && w.collected[k] == o;
        assert(!w.imported.contains(w.collected[k]));
    }
}

/// A walk hands out the oldest commits first: in a history without cycles,
/// every collected parent of a commit comes before the commit.
pub proof fn a_walk_hands_out_parents_first(
    w: WalkView,
    parents: spec_fn(Seq<char>) -> Seq<Seq<char>>,
    rank: spec_fn(Seq<char>) -> nat,
    place: int,
    p: Seq<char>,
)
    requires
        w.sound(),
        notes_parents(w, parents),
        forall|c: Seq<char>, o: Seq<char>| #[trigger] parents(c).contains(o) ==> rank(o) < rank(c),
        0 <= place < walk_order(w).len(),
        parents(walk_order(w)[place]).contains(p),
        w.collected.contains(p),
    ensures
        walk_order(w).take(place).contains(p),
{
    let cs = walked(w);
    let n = w.collected.len();
    lemma_walked(w);
    assert(sequence::ranked(cs, rank)) by {
        assert forall|i: int, q: int|
            0 <= i < cs.len() && 0 <= q < cs[i].parents.len() && sequence::collected(
                cs,
                #[trigger] cs[i].parents[q],
            ) implies rank(cs[i].parents[q]) < rank(cs[i].oid) by {
            assert(w.parents[n - 1 - i] == parents(w.collected[n - 1 - i]));
            assert(parents(cs[i].oid).contains(cs[i].parents[q]));
        }
    }
    sequence::acyclic_history_is_sequenced(cs, rank);
    sequence::order_is_complete(cs);
    let o = walk_order(w)[place];
    assert(walk_order(w).contains(o));
    assert(sequence::collected(cs, o));
    let i: int = choose|i: int| 0 <= i < cs.len() && (#[trigger] cs[i]).oid == o;
    assert(w.parents[n - 1 - i] == parents(w.collected[n - 1 - i]));
    let ps = parents(o);
    let q: int = choose|q: int| 0 <= q < ps.len() && ps[q] == p;
    assert(sequence::collected(cs, p));
    sequence::parents_come_first(cs, place, i, q);
}

/// Whether nothing reachable was overlooked: every parent of a collected
/// commit is known or queued.
pub open spec fn overlooks_nothing(
    w: WalkView,
    parents: spec_fn(Seq<char>) -> Seq<Seq<char>>,
) -> bool {
    forall|c: Seq<char>, p: Seq<char>|
        w.collected.contains(c) && #[trigger] parents(c).contains(p) ==> w.knows(p)
            || #[trigger] w.queue.contains(p)
}

/// A walk that queues the parents of each commit it takes overlooks
/// nothing; so once its queue is empty, every parent of a collected commit
/// is imported or collected.
pub proof fn walk_reaches_the_frontier(
    w: WalkView,
    parents: spec_fn(Seq<char>) -> Seq<Seq<char>>,
)
    requires
        overlooks_nothing(w, parents),
    ensures
        match visit(w) {
            (Some(o), next) => overlooks_nothing(with_parents(next, parents(o)), parents),
            (None, done) => forall|c: Seq<char>, p: Seq<char>|
                done.collected.contains(c) && #[trigger] parents(c).contains(p)
                    ==> #[trigger] done.knows(p),
        },
{
    lemma_past_known(w);
    let q = past_known(w);
    match visit(w) {
        (Some(o), next) => {
            let n = with_parents(next, parents(o));
            assert(next.collected.last() == o);
            assert forall|c: Seq<char>, p: Seq<char>|
                n.collected.contains(c) && #[trigger] parents(c).contains(p) implies n.knows(p)
                || #[trigger] n.queue.contains(p) by {
                if c == o {
                    let ps = parents(o);
                    let k: int = choose|k: int| 0 <= k < ps.len() && ps[k] == p;
                    assert(n.queue[next.queue.len() + k] == p);
                } else {
                    let i: int = choose|i: int| 0 <= i < n.collected.len() && n.collected[i] == c;
                    assert(w.collected[i] == c);
                    assert(w.collected.contains(c));
                    assert(w.knows(p) || w.queue.contains(p));
                    if w.knows(p) {
                        assert(n.collected.take(w.collected.len() as int) =~= w.collected);
                        lemma_known_stays(w, n, p);
                    }
                    if w.queue.contains(p) && !w.knows(p) {
                        assert(q.queue.contains(p));
                        let j: int = choose|j: int| 0 <= j < q.queue.len() && q.queue[j] == p;
                        if j == 0 {
                            assert(n.collected[n.collected.len() - 1] == p);
                            assert(n.collected.contains(p));
                        } else {
                            assert(n.queue[j - 1] == p);
                        }
                    }
                }
            }
        },
        (None, done) => {
            assert forall|c: Seq<char>, p: Seq<char>|
                done.collected.contains(c) && #[trigger] parents(c).contains(
                    p,
                ) implies #[trigger] done.knows(p) by {
                assert(w.collected.contains(c));
                assert(w.knows(p) || w.queue.contains(p));
                if w.queue.contains(p) && !w.knows(p) {
                    assert(q.queue.contains(p));
                }
            }
        },
    }
}

/// Whether everything that was collected or is queued lies behind the tip,
/// and is reached only through collected commits.
pub open spec fn goes_nowhere_else(
    w: WalkView,
    tip: Seq<char>,
    parents: spec_fn(Seq<char>) -> Seq<Seq<char>>,
) -> bool {
    forall|o: Seq<char>|
        #![trigger w.collected.contains(o)]
        #![trigger w.queue.contains(o)]
        w.collected.contains(o) || w.queue.contains(o) ==> o == tip || is_parent_of_collected(
            w,
            o,
            parents,
        )
}

/// Whether a commit is a parent of a collected one.
pub open spec fn is_parent_of_collected(
    w: WalkView,
    o: Seq<char>,
    parents: spec_fn(Seq<char>) -> Seq<Seq<char>>,
) -> bool {
    exists|k: int|
        0 <= k < w.collected.len() && parents(#[trigger] w.collected[k]).contains(o)
}

/// A walk that is told the parents of each commit it takes notes them, and
/// goes nowhere else: a commit below the imported ones is collected only
/// where a line of new commits leads to it.
pub proof fn a_walk_follows_the_parents(
    w: WalkView,
    tip: Seq<char>,
    parents: spec_fn(Seq<char>) -> Seq<Seq<char>>,
)
    requires
        w.sound(),
        notes_parents(w, parents),
        goes_nowhere_else(w, tip, parents),
    ensures
        match visit(w) {
            (Some(o), next) => {
                let told = with_parents(next, parents(o));
                told.sound() && notes_parents(told, parents) && goes_nowhere_else(
                    told,
                    tip,
                    parents,
                )
            },
            (None, done) => done.sound() && notes_parents(done, parents) && goes_nowhere_else(
                done,
                tip,
                parents,
            ),
        },
{
    lemma_past_known(w);
    lemma_past_known_keeps(w);
    visits_are_new(w);
    let q = past_known(w);
    match visit(w) {
        (Some(o), next) => {
            let told = with_parents(next, parents(o));
            assert(told.collected == w.collected.push(o));
            assert forall|i: int| 0 <= i < told.collected.len() implies #[trigger] told.parents[i]
                == parents(told.collected[i]) by {
                if i < w.collected.len() {
                    assert(w.parents[i] == parents(w.collected[i]));
                } else {
                    assert(Seq::<Seq<char>>::empty() + parents(o) =~= parents(o));
                }
            }
            assert forall|c: Seq<char>|
                #![trigger told.collected.contains(c)]
                #![trigger told.queue.contains(c)]
                told.collected.contains(c) || told.queue.contains(c) implies c == tip
                || is_parent_of_collected(told, c, parents) by {
                let n = w.collected.len() as int;
                if parents(o).contains(c) {
                    assert(told.collected[n] == o);
                } else {
                    assert(w.collected.contains(c) || w.queue.contains(c)) by {
                        if told.collected.contains(c) {
                            let k: int = choose|k: int|
                                0 <= k < told.collected.len() && told.collected[k] == c;
                            if k < n {
                                assert(w.collected[k] == c);
                            } else {
                                assert(q.queue[0] == c);
                                assert(q.queue.contains(c));
                            }
                        } else {
                            let k: int = choose|k: int|
                                0 <= k < told.queue.len() && told.queue[k] == c;
                            if k < next.queue.len() {
                                assert(q.queue[k + 1] == c);
                                assert(q.queue.contains(c));
                            } else {
                                let ps = parents(o);
                                assert(ps[k - next.queue.len()] == c);
                            }
                        }
                    }
                    if c != tip {
                        assert(is_parent_of_collected(w, c, parents));
                        let k: int = choose|k: int|
                            0 <= k < n && parents(#[trigger] w.collected[k]).contains(c);
                        assert(told.collected[k] == w.collected[k]);
                    }
                }
            }
        },
        (None, done) => {
            assert forall|c: Seq<char>|
                #![trigger done.collected.contains(c)]
                #![trigger done.queue.contains(c)]
                done.collected.contains(c) || done.queue.contains(c) implies c == tip
                || is_parent_of_collected(done, c, parents) by {
                assert(w.collected.contains(c) || w.queue.contains(c));
                if c != tip {
                    assert(is_parent_of_collected(w, c, parents));
                    let k: int = choose|k: int|
                        0 <= k < w.collected.len() && parents(
                            #[trigger] w.collected[k],
                        ).contains(c);
                    assert(parents(done.collected[k]).contains(c));
                }
            }
        },
    }
}

/// A walk starts with nothing but its tip.
pub proof fn a_walk_starts_at_its_tip(
    imported: Seq<Seq<char>>,
    tip: Seq<char>,
    parents: spec_fn(Seq<char>) -> Seq<Seq<char>>,
)
    ensures
        ({
            let w = walk_start(imported, tip);
            &&& w.sound()
            &&& overlooks_nothing(w, parents)
            &&& notes_parents(w, parents)
            &&& goes_nowhere_else(w, tip, parents)
        }),
{
}

proof fn lemma_past_known_keeps(w: WalkView)
    ensures
        forall|o: Seq<char>| #[trigger] past_known(w).queue.contains(o) ==> w.queue.contains(o),
    decreases w.queue.len(),
{
    if w.queue.len() > 0 && w.knows(w.queue[0]) {
        let next = WalkView { queue: w.queue.drop_first(), ..w };
        lemma_past_known_keeps(next);
        assert forall|o: Seq<char>| #[trigger] past_known(w).queue.contains(
            o,
        ) implies w.queue.contains(o) by {
            assert(past_known(next).queue.contains(o));
            assert(next.queue.contains(o));
            let k: int = choose|k: int| 0 <= k < next.queue.len() && next.queue[k] == o;
            assert(w.queue[k + 1] == o);
        }
    }
}

proof fn lemma_known_stays(w: WalkView, n: WalkView, p: Seq<char>)
    requires
        w.imported == n.imported,
        w.collected.len() <= n.collected.len(),
        n.collected.take(w.collected.len() as int) == w.collected,
        w.knows(p),
    ensures
        n.knows(p),
{
    if w.collected.contains(p) {
        let i: int = choose|i: int| 0 <= i < w.collected.len() && w.collected[i] == p;
        assert(n.collected.take(w.collected.len() as int)[i] == p);
        assert(n.collected[i] == p);
    }
}

impl FrontierWalk {
    /// Whether the place in the queue lies within it, and every collected
    /// commit is new.
    pub open spec fn wf(&self) -> bool {
        self.head <= self.queue@.len() && self@.sound()
    }

    /// Start at a tip, with the commits that are imported already.
    pub fn new(imported: &Vec<String>, tip: &str) -> (r: FrontierWalk)
        ensures
            r.wf(),
            r@ == walk_start(text::texts(imported@), tip@),
    {
        let mut queue: Vec<String> = Vec::new();
        queue.push(tip.to_owned());
        let collected: Vec<String> = Vec::new();
        let parents: Vec<Vec<String>> = Vec::new();
        let r = FrontierWalk {
            imported: clone_texts(imported),
            queue,
            head: 0,
            collected,
            parents,
        };
        assert(r@ =~= walk_start(text::texts(imported@), tip@));
        r
    }

    /// Take the next commit to visit. Its parents are to be handed in
    /// before the next call.
    pub fn next(&mut self) -> (r: Option<String>)
        requires
            old(self).wf(),
        ensures
            final(self).wf(),
            text::opt_text(r) == visit(old(self)@).0,
            final(self)@ == visit(old(self)@).1,
    {
        let ghost start = self@;
        proof {
            visits_are_new(start);
        }
        while self.head < self.queue.len() && (contains_text(
            &self.imported,
            &self.queue[self.head],
        ) || contains_text(&self.collected, &self.queue[self.head]))
            invariant
                self.wf(),
                past_known(self@) == past_known(start),
            decreases self.queue@.len() - self.head,
        {
            let ghost w = self@;
            assert(w.queue[0] == self.queue@[self.head as int]@);
            self.head = self.head + 1;
            assert(self@ =~= (WalkView { queue: w.queue.drop_first(), ..w }));
        }
        assert(self@.queue.len() == self.queue@.len() - self.head);
        if self.head == self.queue.len() {
            return None;
        }
        let ghost w = self@;
        assert(w.queue[0] == self.queue@[self.head as int]@);
        assert(past_known(w) == w);
        let oid = self.queue[self.head].clone();
        self.collected.push(oid.clone());
        self.parents.push(Vec::new());
        self.head = self.head + 1;
        assert(self@.parents =~~= w.parents.push(seq![]));
        assert(self@ =~= (WalkView {
            queue: w.queue.drop_first(),
            collected: w.collected.push(w.queue[0]),
            parents: w.parents.push(seq![]),
            ..w
        }));
        Some(oid)
    }

    /// Queue the parents of the commit that was taken last.
    pub fn take_parents(&mut self, parents: &Vec<String>)
        requires
            old(self).wf(),
        ensures
            final(self).wf(),
            final(self)@ == with_parents(old(self)@, text::texts(parents@)),
    {
        let ghost w = self@;
        let ghost ps = text::texts(parents@);
        let mut more = clone_texts(parents);
        let ghost q = self.queue@;
        let ghost mv = more@;
        self.queue.append(&mut more);
        assert(self.queue@ =~= q + mv);
        if let Some(mut known) = self.parents.pop() {
            let ghost kv = known@;
            let mut noted = clone_texts(parents);
            let ghost nv = noted@;
            known.append(&mut noted);
            assert(known@ =~= kv + nv);
            assert(text::texts(known@) =~= w.parents.last() + ps);
            self.parents.push(known);
            assert(self@.parents =~= w.parents.update(
                w.parents.len() - 1,
                w.parents.last() + ps,
            ));
        }
        assert(self@ =~= with_parents(w, ps));
    }

    /// The collected commits, oldest first: every commit after those of its
    /// parents that were collected.
    pub fn finish(self) -> (r: Vec<String>)
        requires
            self.wf(),
        ensures
            text::texts(r@) == walk_order(self@),
    {
        let ghost w = self@;
        let ghost want = walked(w);
        let n: usize = self.collected.len();
        let mut nodes: Vec<CommitNode> = Vec::new();
        let mut i: usize = 0;
        assert(sequence::node_views(nodes@) =~= want.take(0));
        while i < n
            invariant
                i <= n == self.collected@.len(),
                self@ == w,
                w.sound(),
                want == walked(w),
                sequence::node_views(nodes@) == want.take(i as int),
            decreases n - i,
        {
            let ghost before = sequence::node_views(nodes@);
            let time: i64 = if (i as u64) <= 0x7fff_ffff_ffff_ffff {
                i as i64
            } else {
                0x7fff_ffff_ffff_ffff
            };
            let k: usize = n - 1 - i;
            assert(w.collected[k as int] == self.collected@[k as int]@);
            assert(w.parents[k as int] == text::texts(self.parents@[k as int]@));
            let node = CommitNode {
                oid: self.collected[k].clone(),
                committer_time: time,
                parents: clone_texts(&self.parents[k]),
            };
            let ghost nv = node@;
            assert(nv =~= want[i as int]);
            nodes.push(node);
            assert(sequence::node_views(nodes@) =~= before.push(nv));
            assert(sequence::node_views(nodes@) =~= want.take(i as int + 1));
            i += 1;
        }
        assert(want.take(n as int) =~= want);
        proof {
            lemma_walked(w);
        }
        match sequence_commits_deterministically(&nodes) {
            Ok((order, _ties)) => order,
            Err(_) => {
                let out = reversed(self.collected);
                assert(text::texts(out@) =~= w.collected.reverse());
                out
            },
        }
    }
}

/// Where a Git history ends, or is not what its objects say.
#[derive(Clone, Copy, Debug, PartialEq, Eq, Structural)]
pub enum GitClosureBoundary {
    /// History below the shallow boundary is missing.
    Shallow,
    /// A partial clone: missing objects may be fetched lazily.
    Promisor,
    /// `info/grafts` rewrites parent links.
    Grafts,
    /// `refs/replace/` substitutes objects.
    ReplaceRefs,
}

/// The short name of a boundary.
pub open spec fn boundary_name(b: GitClosureBoundary) -> Seq<char> {
    match b {
        GitClosureBoundary::Shallow => "shallow"@,
        GitClosureBoundary::Promisor => "promisor"@,
        GitClosureBoundary::Grafts => "grafts"@,
        GitClosureBoundary::ReplaceRefs => "replace"@,
    }
}

/// What a boundary means.
pub open spec fn boundary_detail(b: GitClosureBoundary) -> Seq<char> {
    match b {
        GitClosureBoundary::Shallow =>
            "history below the shallow boundary is missing; the shallow commits are imported as explicit boundary roots, not real roots"@,
        GitClosureBoundary::Promisor =>
            "this is a partial clone; missing objects may be fetched lazily and the closure cannot be claimed complete"@,
        GitClosureBoundary::Grafts =>
            "info/grafts rewrites Git parent links; sequencing follows the grafted graph"@,
        GitClosureBoundary::ReplaceRefs =>
            "refs/replace/ substitutes Git objects; sequencing follows the replaced graph"@,
    }
}

impl GitClosureBoundary {
    /// The short name of the boundary.
    pub fn label(self) -> (r: &'static str)
        ensures
            r@ == boundary_name(self),
    {
        match self {
            GitClosureBoundary::Shallow => "shallow",
            GitClosureBoundary::Promisor => "promisor",
            GitClosureBoundary::Grafts => "grafts",
            GitClosureBoundary::ReplaceRefs => "replace",
        }
    }

    /// What the boundary means.
    pub fn detail(self) -> (r: &'static str)
        ensures
            r@ == boundary_detail(self),
    {
        match self {
            GitClosureBoundary::Shallow =>
                "history below the shallow boundary is missing; the shallow commits are imported as explicit boundary roots, not real roots",
            GitClosureBoundary::Promisor =>
                "this is a partial clone; missing objects may be fetched lazily and the closure cannot be claimed complete",
            GitClosureBoundary::Grafts =>
                "info/grafts rewrites Git parent links; sequencing follows the grafted graph",
            GitClosureBoundary::ReplaceRefs =>
                "refs/replace/ substitutes Git objects; sequencing follows the replaced graph",
        }
    }
}

/// Whether a list holds the value `true` in text.
pub open spec fn says_true(values: Seq<Option<String>>) -> bool {
    exists|i: int|
        0 <= i < values.len() && (#[trigger] values[i] matches Some(v) && v@ == "true"@)
}

/// Whether a reference substitutes an object.
pub open spec fn has_replacement(refs: Seq<Seq<char>>) -> bool {
    exists|i: int| 0 <= i < refs.len() && text::has_prefix(#[trigger] refs[i], "refs/replace/"@)
}

/// The boundaries of a repository, in a fixed order.
pub open spec fn boundaries_of(
    shallow_file: bool,
    partial_clone: bool,
    promisor: bool,
    grafts_file: bool,
    replaced: bool,
) -> Seq<GitClosureBoundary> {
    let a: Seq<GitClosureBoundary> = if shallow_file {
        seq![GitClosureBoundary::Shallow]
    } else {
        seq![]
    };
    let b = if partial_clone || promisor {
        a.push(GitClosureBoundary::Promisor)
    } else {
        a
    };
    let c = if grafts_file {
        b.push(GitClosureBoundary::Grafts)
    } else {
        b
    };
    if replaced {
        c.push(GitClosureBoundary::ReplaceRefs)
    } else {
        c
    }
}

fn any_true(values: &Vec<Option<String>>) -> (r: bool)
    ensures
        r == says_true(values@),
{
    let wanted: String = "true".to_owned();
    let mut i: usize = 0;
    while i < values.len()
        invariant
            i <= values@.len(),
            wanted@ == "true"@,
            forall|k: int|
                0 <= k < i ==> !(#[trigger] values@[k] matches Some(v) && v@ == "true"@),
        decreases values@.len() - i,
    {
        if let Some(v) = &values[i] {
            if *v == wanted {
                assert(values@[i as int] matches Some(x) && x@ == "true"@);
                return true;
            }
        }
        i += 1;
    }
    false
}

fn any_replacement(refs: &Vec<String>) -> (r: bool)
    ensures
        r == has_replacement(text::texts(refs@)),
{
    let ghost all = text::texts(refs@);
    let mut i: usize = 0;
    while i < refs.len()
        invariant
            i <= refs@.len(),
            all == text::texts(refs@),
            forall|k: int| 0 <= k < i ==> !text::has_prefix(#[trigger] all[k], "refs/replace/"@),
        decreases refs@.len() - i,
    {
        assert(all[i as int] == refs@[i as int]@);
        if starts_with(&refs[i], "refs/replace/") {
            return true;
        }
        i += 1;
    }
    false
}

/// Detect the boundaries of a repository: from its shallow and grafts files,
/// its partial-clone setting, the values of its `remote.*.promisor` settings
/// and the names of its references.
pub fn detect_git_boundaries(
    shallow_file: bool,
    partial_clone: bool,
    promisor_values: &Vec<Option<String>>,
    grafts_file: bool,
    reference_names: &Vec<String>,
) -> (r: Vec<GitClosureBoundary>)
    ensures
        r@ == boundaries_of(
            shallow_file,
            partial_clone,
            says_true(promisor_values@),
            grafts_file,
            has_replacement(text::texts(reference_names@)),
        ),
{
    let mut out: Vec<GitClosureBoundary> = Vec::new();
    if shallow_file {
        out.push(GitClosureBoundary::Shallow);
    }
    if partial_clone || any_true(promisor_values) {
        out.push(GitClosureBoundary::Promisor);
    }
    if grafts_file {
        out.push(GitClosureBoundary::Grafts);
    }
    if any_replacement(reference_names) {
        out.push(GitClosureBoundary::ReplaceRefs);
    }
    assert(out@ =~= boundaries_of(
        shallow_file,
        partial_clone,
        says_true(promisor_values@),
        grafts_file,
        has_replacement(text::texts(reference_names@)),
    ));
    out
}

/// The trimmed lines of a text that are not empty.
pub open spec fn filled_lines(ls: Seq<Seq<char>>) -> Seq<Seq<char>>
    decreases ls.len(),
{
    if ls.len() == 0 {
        seq![]
    } else {
        let head = filled_lines(ls.drop_last());
        let last = text::trimmed(ls.last());
        if last.len() == 0 {
            head
        } else {
            head.push(last)
        }
    }
}

/// The commits that a shallow file names.
pub fn shallow_boundary_oids(content: &str) -> (r: Vec<String>)
    ensures
        text::texts(r@) == filled_lines(text::lines_of(content@)),
{
    let ls = lines(content);
    let ghost all = text::texts(ls@);
    let mut out: Vec<String> = Vec::new();
    let mut i: usize = 0;
    assert(all.take(0) =~= Seq::<Seq<char>>::empty());
    assert(text::texts(out@) =~= Seq::<Seq<char>>::empty());
    while i < ls.len()
        invariant
            i <= ls@.len(),
            all == text::texts(ls@),
            text::texts(out@) == filled_lines(all.take(i as int)),
        decreases ls@.len() - i,
    {
        assert(all.take(i as int + 1).drop_last() =~= all.take(i as int));
        assert(all.take(i as int + 1).last() == ls@[i as int]@);
        let t = trim(&ls[i]);
        if !t.as_str().is_empty() {
            let ghost before = text::texts(out@);
            let ghost tv = t@;
            out.push(t);
            assert(text::texts(out@) =~= before.push(tv));
        }
        i += 1;
    }
    assert(all.take(ls@.len() as int) =~= all);
    out
}

/// What the object database answered for one collected commit.
#[derive(Debug)]
pub struct ClosureObservation {
    pub oid: String,
    /// Why the commit cannot be read, if it cannot.
    pub unreadable: Option<String>,
    /// Its parents, each with whether it can be read.
    pub parents: Vec<(String, bool)>,
    /// Whether its tree can be read.
    pub tree_readable: bool,
}

/// The ids of observed commits.
pub open spec fn observed_oids(cs: Seq<ClosureObservation>) -> Seq<Seq<char>> {
    cs.map_values(|c: ClosureObservation| c.oid@)
}

/// Tell whether these commits were observed, in this order.
pub fn observes(cs: &Vec<ClosureObservation>, order: &Vec<String>) -> (r: bool)
    ensures
        r == (observed_oids(cs@) == text::texts(order@)),
{
    let ghost seen = observed_oids(cs@);
    let ghost want = text::texts(order@);
    assert(seen.len() == cs@.len() && want.len() == order@.len());
    if cs.len() != order.len() {
        return false;
    }
    let mut i: usize = 0;
    while i < cs.len()
        invariant
            i <= cs@.len() == order@.len(),
            seen == observed_oids(cs@),
            want == text::texts(order@),
            forall|k: int| 0 <= k < i ==> #[trigger] seen[k] == want[k],
        decreases cs@.len() - i,
    {
        assert(seen[i as int] == cs@[i as int].oid@);
        assert(want[i as int] == order@[i as int]@);
        if !same_text(&cs[i].oid, &order[i]) {
            return false;
        }
        i += 1;
    }
    assert(seen =~= want);
    true
}

/// The first parent that cannot be read.
pub open spec fn missing_parent(ps: Seq<(String, bool)>) -> Option<Seq<char>>
    decreases ps.len(),
{
    if ps.len() == 0 {
        None
    } else if !ps[0].1 {
        Some(ps[0].0@)
    } else {
        missing_parent(ps.drop_first())
    }
}

/// Why the objects of one commit do not suffice.
pub open spec fn closure_gap(c: ClosureObservation, shallow: Seq<Seq<char>>) -> Option<Seq<char>> {
    if c.unreadable is Some {
        Some(
            "Git closure boundary: commit "@ + c.oid@
                + " cannot be read from the object database ("@ + c.unreadable->0@
                + "); refusing to synthesize history with missing objects"@,
        )
    } else if missing_parent(c.parents@) is Some && !shallow.contains(c.oid@) {
        Some(
            "Git closure boundary: commit "@ + c.oid@ + " names parent "@ + missing_parent(
                c.parents@,
            )->0
                + " that cannot be read from the object database; refusing to synthesize history with missing objects"@,
        )
    } else if !c.tree_readable {
        Some(
            "Git closure boundary: commit "@ + c.oid@
                + " tree cannot be read; refusing to synthesize history with missing objects"@,
        )
    } else {
        None
    }
}

/// The first gap in a collected history.
pub open spec fn first_gap(cs: Seq<ClosureObservation>, shallow: Seq<Seq<char>>) -> Option<
    Seq<char>,
>
    decreases cs.len(),
{
    if cs.len() == 0 {
        None
    } else {
        match closure_gap(cs[0], shallow) {
            Some(m) => Some(m),
            None => first_gap(cs.drop_first(), shallow),
        }
    }
}

fn find_missing_parent(ps: &Vec<(String, bool)>) -> (r: Option<String>)
    ensures
        text::opt_text(r) == missing_parent(ps@),
{
    let mut i: usize = 0;
    assert(ps@.skip(0) =~= ps@);
    while i < ps.len()
        invariant
            i <= ps@.len(),
            missing_parent(ps@) == missing_parent(ps@.skip(i as int)),
        decreases ps@.len() - i,
    {
        assert(ps@.skip(i as int).drop_first() =~= ps@.skip(i as int + 1));
        if !ps[i].1 {
            return Some(ps[i].0.clone());
        }
        i += 1;
    }
    None
}

fn find_gap(c: &ClosureObservation, shallow: &Vec<String>) -> (r: Option<String>)
    ensures
        text::opt_text(r) == closure_gap(*c, text::texts(shallow@)),
{
    let mut m: String = "Git closure boundary: commit ".to_owned();
    m.append(&c.oid);
    if let Some(e) = &c.unreadable {
        m.append(" cannot be read from the object database (");
        m.append(e);
        m.append("); refusing to synthesize history with missing objects");
        return Some(m);
    }
    if let Some(p) = find_missing_parent(&c.parents) {
        if !contains_text(shallow, &c.oid) {
            m.append(" names parent ");
            m.append(&p);
            m.append(
                " that cannot be read from the object database; refusing to synthesize history with missing objects",
            );
            return Some(m);
        }
    }
    if !c.tree_readable {
        m.append(" tree cannot be read; refusing to synthesize history with missing objects");
        return Some(m);
    }
    None
}

/// Refuse a collected history whose commits, parents or trees cannot all be
/// read. A parent may be missing below a commit that is declared shallow.
pub fn verify_commit_closure_objects_with_shallow(
    commits: &Vec<ClosureObservation>,
    shallow: &Vec<String>,
) -> (r: Result<(), CliError>)
    ensures
        match first_gap(commits@, text::texts(shallow@)) {
            Some(m) => r matches Err(e) && e.is_git_error(m),
            None => r is Ok,
        },
{
    let ghost sv = text::texts(shallow@);
    let mut i: usize = 0;
    assert(commits@.skip(0) =~= commits@);
    while i < commits.len()
        invariant
            i <= commits@.len(),
            sv == text::texts(shallow@),
            first_gap(commits@, sv) == first_gap(commits@.skip(i as int), sv),
        decreases commits@.len() - i,
    {
        assert(commits@.skip(i as int).drop_first() =~= commits@.skip(i as int + 1));
        if let Some(m) = find_gap(&commits[i], shallow) {
            return Err(git_error(m));
        }
        i += 1;
    }
    Ok(())
}

/// Every boundary is told, once, and none that is not there.
pub proof fn boundaries_are_told_once(
    shallow_file: bool,
    partial_clone: bool,
    promisor: bool,
    grafts_file: bool,
    replaced: bool,
)
    ensures
        ({
            let bs = boundaries_of(shallow_file, partial_clone, promisor, grafts_file, replaced);
            &&& bs.no_duplicates()
            &&& bs.contains(GitClosureBoundary::Shallow) <==> shallow_file
            &&& bs.contains(GitClosureBoundary::Promisor) <==> partial_clone || promisor
            &&& bs.contains(GitClosureBoundary::Grafts) <==> grafts_file
            &&& bs.contains(GitClosureBoundary::ReplaceRefs) <==> replaced
        }),
{
    let bs = boundaries_of(shallow_file, partial_clone, promisor, grafts_file, replaced);
    let a: int = if shallow_file {
        1
    } else {
        0
    };
    let b: int = if partial_clone || promisor {
        a + 1
    } else {
        a
    };
    let c: int = if grafts_file {
        b + 1
    } else {
        b
    };
    assert(shallow_file ==> bs[0] == GitClosureBoundary::Shallow);
    assert(partial_clone || promisor ==> bs[a] == GitClosureBoundary::Promisor);
    assert(grafts_file ==> bs[b] == GitClosureBoundary::Grafts);
    assert(replaced ==> bs[c] == GitClosureBoundary::ReplaceRefs);
}

/// A history without a gap can be read: where none is found, every commit,
/// every tree and, but at a shallow boundary, every parent is there.
pub proof fn no_gap_means_readable(cs: Seq<ClosureObservation>, shallow: Seq<Seq<char>>, i: int, p: int)
    requires
        first_gap(cs, shallow) is None,
        0 <= i < cs.len(),
    ensures
        cs[i].unreadable is None,
        cs[i].tree_readable,
        0 <= p < cs[i].parents@.len() && !shallow.contains(cs[i].oid@) ==> cs[i].parents@[p].1,
    decreases cs.len(),
{
    if i > 0 {
        no_gap_means_readable(cs.drop_first(), shallow, i - 1, p);
    } else {
        lemma_no_missing_parent(cs[0].parents@);
    }
}

proof fn lemma_no_missing_parent(ps: Seq<(String, bool)>)
    ensures
        missing_parent(ps) is None ==> forall|p: int| 0 <= p < ps.len() ==> (#[trigger] ps[p]).1,
    decreases ps.len(),
{
    if ps.len() > 0 && ps[0].1 {
        let t = ps.drop_first();
        lemma_no_missing_parent(t);
        if missing_parent(ps) is None {
            assert forall|p: int| 0 <= p < ps.len() implies (#[trigger] ps[p]).1 by {
                if p > 0 {
                    assert(ps[p] == t[p - 1]);
                }
            }
        }
    }
}

/// Every filled line of a list counts, trimmed, and no blank one.
pub proof fn filled_lines_are_the_trimmed_ones(ls: Seq<Seq<char>>, l: Seq<char>)
    ensures
        filled_lines(ls).contains(l) <==> l.len() > 0 && exists|i: int|
            0 <= i < ls.len() && text::trimmed(#[trigger] ls[i]) == l,
    decreases ls.len(),
{
    let all = filled_lines(ls);
    if ls.len() == 0 {
        assert(all.len() == 0);
    } else {
        let h = ls.drop_last();
        let head = filled_lines(h);
        filled_lines_are_the_trimmed_ones(h, l);
        if all.contains(l) {
            let j = choose|j: int| 0 <= j < all.len() && all[j] == l;
            if j < head.len() {
                assert(head[j] == l);
                assert(head.contains(l));
                let i = choose|i: int| 0 <= i < h.len() && text::trimmed(#[trigger] h[i]) == l;
                assert(ls[i] == h[i]);
            } else {
                assert(text::trimmed(ls[ls.len() - 1]) == l);
            }
        }
        if l.len() > 0 && exists|i: int|
            0 <= i < ls.len() && text::trimmed(#[trigger] ls[i]) == l {
            let i = choose|i: int| 0 <= i < ls.len() && text::trimmed(#[trigger] ls[i]) == l;
            if i < h.len() {
                assert(h[i] == ls[i]);
                let j = choose|j: int| 0 <= j < head.len() && head[j] == l;
                assert(all[j] == l);
            } else {
                assert(all[head.len() as int] == l);
            }
        }
    }
}

} // verus!
