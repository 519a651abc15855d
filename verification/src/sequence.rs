//! The order in which collected commits are imported.
use crate::error::{git_error, CliError};
use crate::paths;
use crate::paths::less_text;
use crate::text;
use crate::text::{clone_texts, contains_text, to_decimal};
use vstd::hash_map::StringHashMap;
use vstd::prelude::*;

verus! {

/// A collected commit: its id, its committer time and its parents, all ids
/// as hexadecimal text.
#[derive(Debug)]
pub struct CommitNode {
    pub oid: String,
    pub committer_time: i64,
    pub parents: Vec<String>,
}

/// A `CommitNode` as a value.
#[verifier::ext_equal]
pub struct NodeView {
    pub oid: Seq<char>,
    pub committer_time: i64,
    pub parents: Seq<Seq<char>>,
}

impl View for CommitNode {
    type V = NodeView;

    open spec fn view(&self) -> NodeView {
        NodeView {
            oid: self.oid@,
            committer_time: self.committer_time,
            parents: text::texts(self.parents@),
        }
    }
}

/// The views of a list of commits.
pub open spec fn node_views(v: Seq<CommitNode>) -> Seq<NodeView> {
    v.map_values(|c: CommitNode| c@)
}

/// No commit is collected twice.
pub open spec fn distinct_commits(cs: Seq<NodeView>) -> bool {
    forall|i: int, j: int|
        0 <= i < j < cs.len() ==> (#[trigger] cs[i]).oid != (#[trigger] cs[j]).oid
}

/// Whether a commit is collected.
pub open spec fn collected(cs: Seq<NodeView>, oid: Seq<char>) -> bool {
    exists|i: int| 0 <= i < cs.len() && (#[trigger] cs[i]).oid == oid
}

/// Whether `a` goes before `b`: by committer time, then by id.
pub open spec fn earlier(a: NodeView, b: NodeView) -> bool {
    a.committer_time < b.committer_time || (a.committer_time == b.committer_time
        && paths::text_less(a.oid, b.oid))
}

/// Whether the parent `p` of the commit `i` is out of the way: done, or not
/// collected.
pub open spec fn parent_settled(
    cs: Seq<NodeView>,
    done: Seq<Seq<char>>,
    i: int,
    p: int,
) -> bool {
    collected(cs, cs[i].parents[p]) ==> done.contains(cs[i].parents[p])
}

/// Whether the commit `i` can be next: it is not done, and every collected
/// parent is.
pub open spec fn is_ready(cs: Seq<NodeView>, done: Seq<Seq<char>>, i: int) -> bool {
    &&& !done.contains(cs[i].oid)
    &&& forall|p: int| 0 <= p < cs[i].parents.len() ==> #[trigger] parent_settled(cs, done, i, p)
}

/// The earliest ready commit among the first `k`.
pub open spec fn least_ready(cs: Seq<NodeView>, done: Seq<Seq<char>>, k: int) -> Option<int>
    decreases k,
{
    if k <= 0 {
        None
    } else {
        let before = least_ready(cs, done, k - 1);
        if is_ready(cs, done, k - 1) {
            match before {
                Some(i) => if earlier(cs[k - 1], cs[i]) {
                    Some(k - 1)
                } else {
                    Some(i)
                },
                None => Some(k - 1),
            }
        } else {
            before
        }
    }
}

/// How many of the first `k` commits are ready.
pub open spec fn ready_count(cs: Seq<NodeView>, done: Seq<Seq<char>>, k: int) -> nat
    decreases k,
{
    if k <= 0 {
        0
    } else {
        ready_count(cs, done, k - 1) + if is_ready(cs, done, k - 1) {
            1nat
        } else {
            0nat
        }
    }
}

/// The first `n` commits of the order: at each place the earliest commit
/// that is ready.
pub open spec fn sequenced(cs: Seq<NodeView>, n: nat) -> Seq<Seq<char>>
    decreases n,
{
    if n == 0 {
        seq![]
    } else {
        let done = sequenced(cs, (n - 1) as nat);
        match least_ready(cs, done, cs.len() as int) {
            Some(i) => done.push(cs[i].oid),
            None => done,
        }
    }
}

/// At how many of the first `n` places more than one commit was ready.
pub open spec fn tie_count(cs: Seq<NodeView>, n: nat) -> nat
    decreases n,
{
    if n == 0 {
        0
    } else {
        let done = sequenced(cs, (n - 1) as nat);
        tie_count(cs, (n - 1) as nat) + if ready_count(cs, done, cs.len() as int) >= 2 {
            1nat
        } else {
            0nat
        }
    }
}

/// The order of a collected history.
pub open spec fn bridge_order(cs: Seq<NodeView>) -> Seq<Seq<char>> {
    sequenced(cs, cs.len())
}

/// Why a history has no order.
pub open spec fn unordered_text(ordered: nat, all: nat) -> Seq<char> {
    "bridge sequencing could not order all collected commits ("@ + text::decimal(ordered)
        + " of "@ + text::decimal(all) + "); the Git graph is cyclic or incomplete"@
}

proof fn lemma_earlier_trans(a: NodeView, b: NodeView, c: NodeView)
    requires
        earlier(a, b),
        earlier(b, c),
    ensures
        earlier(a, c),
{
    if a.committer_time == b.committer_time && b.committer_time == c.committer_time {
        paths::lemma_text_less_trans(a.oid, b.oid, c.oid);
    }
}

proof fn lemma_least_ready(cs: Seq<NodeView>, done: Seq<Seq<char>>, k: int)
    requires
        0 <= k <= cs.len(),
    ensures
        match least_ready(cs, done, k) {
            Some(i) => 0 <= i < k && is_ready(cs, done, i) && forall|j: int|
                0 <= j < k && #[trigger] is_ready(cs, done, j) ==> !earlier(cs[j], cs[i]),
            None => forall|j: int| 0 <= j < k ==> !#[trigger] is_ready(cs, done, j),
        },
    decreases k,
{
    if k > 0 {
        lemma_least_ready(cs, done, k - 1);
        if is_ready(cs, done, k - 1) {
            match least_ready(cs, done, k - 1) {
                Some(i) => {
                    if earlier(cs[k - 1], cs[i]) {
                        assert forall|j: int|
                            0 <= j < k && #[trigger] is_ready(cs, done, j) implies !earlier(
                            cs[j],
                            cs[k - 1],
                        ) by {
                            if earlier(cs[j], cs[k - 1]) {
                                lemma_earlier_trans(cs[j], cs[k - 1], cs[i]);
                                if j == k - 1 {
                                    paths::lemma_text_less_total(cs[j].oid, cs[j].oid);
                                }
                            }
                        }
                    }
                },
                None => {
                    paths::lemma_text_less_total(cs[k - 1].oid, cs[k - 1].oid);
                },
            }
        }
    }
}

proof fn lemma_stuck(cs: Seq<NodeView>, n: nat, m: nat)
    requires
        n <= m,
        least_ready(cs, sequenced(cs, n), cs.len() as int) is None,
    ensures
        sequenced(cs, m) == sequenced(cs, n),
    decreases m,
{
    if n < m {
        lemma_stuck(cs, n, (m - 1) as nat);
    }
}

/// The place of every collected commit.
fn places_of(cs: &Vec<CommitNode>) -> (r: StringHashMap<usize>)
    ensures
        forall|o: Seq<char>|
            #![trigger r@.contains_key(o)]
            r@.contains_key(o) == collected(node_views(cs@), o),
        forall|o: Seq<char>|
            #![trigger r@[o]]
            r@.contains_key(o) ==> r@[o] < cs@.len() && cs@[r@[o] as int].oid@ == o,
{
    let ghost all = node_views(cs@);
    let mut m: StringHashMap<usize> = StringHashMap::new();
    let mut i: usize = 0;
    while i < cs.len()
        invariant
            i <= cs@.len(),
            all == node_views(cs@),
            forall|k: int| 0 <= k < i ==> m@.contains_key((#[trigger] cs@[k]).oid@),
            forall|o: Seq<char>|
                #![trigger m@[o]]
                m@.contains_key(o) ==> m@[o] < cs@.len() && cs@[m@[o] as int].oid@ == o,
        decreases cs@.len() - i,
    {
        m.insert(cs[i].oid.clone(), i);
        i += 1;
    }
    assert forall|o: Seq<char>| #![trigger m@.contains_key(o)] m@.contains_key(o) == collected(
        all,
        o,
    ) by {
        if collected(all, o) {
            let k: int = choose|k: int| 0 <= k < all.len() && (#[trigger] all[k]).oid == o;
            assert(m@.contains_key(cs@[k].oid@));
        }
        if m@.contains_key(o) {
            let k = m@[o] as int;
            assert(all[k].oid == o);
        }
    }
    m
}

/// Whether `js` are the places of the collected parents of a commit.
spec fn places_parents(cs: Seq<NodeView>, i: int, js: Seq<usize>) -> bool {
    &&& forall|q: int|
        0 <= q < js.len() ==> (#[trigger] js[q]) < cs.len() && cs[i].parents.contains(
            cs[js[q] as int].oid,
        )
    &&& forall|p: int|
        0 <= p < cs[i].parents.len() && collected(cs, #[trigger] cs[i].parents[p])
            ==> exists|q: int| 0 <= q < js.len() && cs[(#[trigger] js[q]) as int].oid == cs[i].parents[p]
}

fn parent_places(cs: &Vec<CommitNode>, i: usize, places: &StringHashMap<usize>) -> (r: Vec<usize>)
    requires
        i < cs@.len(),
        forall|o: Seq<char>|
            #![trigger places@.contains_key(o)]
            places@.contains_key(o) == collected(node_views(cs@), o),
        forall|o: Seq<char>|
            #![trigger places@[o]]
            places@.contains_key(o) ==> places@[o] < cs@.len() && cs@[places@[o] as int].oid@ == o,
    ensures
        places_parents(node_views(cs@), i as int, r@),
{
    let ghost all = node_views(cs@);
    let parents: &Vec<String> = &cs[i].parents;
    let ghost pv = text::texts(parents@);
    assert(all[i as int].parents == pv);
    let mut out: Vec<usize> = Vec::new();
    let mut p: usize = 0;
    while p < parents.len()
        invariant
            p <= parents@.len(),
            all == node_views(cs@),
            pv == text::texts(parents@),
            forall|o: Seq<char>|
                #![trigger places@.contains_key(o)]
                places@.contains_key(o) == collected(all, o),
            forall|o: Seq<char>|
                #![trigger places@[o]]
                places@.contains_key(o) ==> places@[o] < cs@.len() && cs@[places@[o] as int].oid@
                    == o,
            forall|q: int|
                0 <= q < out@.len() ==> (#[trigger] out@[q]) < all.len() && pv.contains(
                    all[out@[q] as int].oid,
                ),
            forall|k: int|
                0 <= k < p && collected(all, #[trigger] pv[k]) ==> exists|q: int|
                    0 <= q < out@.len() && all[(#[trigger] out@[q]) as int].oid == pv[k],
        decreases parents@.len() - p,
    {
        let ghost before = out@;
        if let Some(j) = places.get(&parents[p]) {
            assert(places@.contains_key(pv[p as int]));
            out.push(*j);
            assert(out@[before.len() as int] == *j);
            assert(all[*j as int].oid == pv[p as int]);
            assert forall|q: int| 0 <= q < out@.len() implies (#[trigger] out@[q]) < all.len()
                && pv.contains(all[out@[q] as int].oid) by {
                if q < before.len() {
                    assert(before[q] < all.len());
                }
            }
            assert forall|k: int|
                0 <= k < p + 1 && collected(all, #[trigger] pv[k]) implies exists|q: int|
                0 <= q < out@.len() && all[(#[trigger] out@[q]) as int].oid == pv[k] by {
                if k < p {
                    let q: int = choose|q: int|
                        0 <= q < before.len() && all[(#[trigger] before[q]) as int].oid == pv[k];
                    assert(out@[q] == before[q]);
                }
            }
        } else {
            assert(!collected(all, pv[p as int]));
        }
        p += 1;
    }
    out
}

/// Whether the flags tell which commits are done.
spec fn flags_tell(cs: Seq<NodeView>, flags: Seq<bool>, done: Seq<Seq<char>>) -> bool {
    &&& flags.len() == cs.len()
    &&& forall|i: int| 0 <= i < cs.len() ==> #[trigger] flags[i] == done.contains(cs[i].oid)
}

fn check_ready(
    cs: &Vec<CommitNode>,
    i: usize,
    js: &Vec<usize>,
    flags: &Vec<bool>,
    Ghost(done): Ghost<Seq<Seq<char>>>,
) -> (r: bool)
    requires
        i < cs@.len(),
        places_parents(node_views(cs@), i as int, js@),
        flags_tell(node_views(cs@), flags@, done),
    ensures
        r == is_ready(node_views(cs@), done, i as int),
{
    let ghost all = node_views(cs@);
    if flags[i] {
        return false;
    }
    let mut q: usize = 0;
    while q < js.len()
        invariant
            q <= js@.len(),
            all == node_views(cs@),
            i < all.len(),
            places_parents(all, i as int, js@),
            flags_tell(all, flags@, done),
            forall|k: int| 0 <= k < q ==> flags@[(#[trigger] js@[k]) as int],
        decreases js@.len() - q,
    {
        let j: usize = js[q];
        assert(js@[q as int] < all.len());
        if !flags[j] {
            let ghost o = all[j as int].oid;
            assert(all[i as int].parents.contains(o));
            let ghost p = choose|p: int|
                0 <= p < all[i as int].parents.len() && all[i as int].parents[p] == o;
            assert(collected(all, o));
            assert(!parent_settled(all, done, i as int, p));
            return false;
        }
        q += 1;
    }
    assert forall|p: int| 0 <= p < all[i as int].parents.len() implies #[trigger] parent_settled(
        all,
        done,
        i as int,
        p,
    ) by {
        let o = all[i as int].parents[p];
        if collected(all, o) {
            let k: int = choose|k: int|
                0 <= k < js@.len() && all[(#[trigger] js@[k]) as int].oid == o;
            assert(flags@[js@[k] as int]);
        }
    }
    true
}

/// The earliest ready commit, and whether another is ready.
fn pick_ready(
    cs: &Vec<CommitNode>,
    places: &Vec<Vec<usize>>,
    flags: &Vec<bool>,
    Ghost(done): Ghost<Seq<Seq<char>>>,
) -> (r: (Option<usize>, bool))
    requires
        places@.len() == cs@.len(),
        forall|i: int|
            0 <= i < cs@.len() ==> places_parents(node_views(cs@), i, #[trigger] places@[i]@),
        flags_tell(node_views(cs@), flags@, done),
    ensures
        match least_ready(node_views(cs@), done, cs@.len() as int) {
            Some(i) => r.0 == Some(i as usize) && 0 <= i < cs@.len(),
            None => r.0 is None,
        },
        r.1 == (ready_count(node_views(cs@), done, cs@.len() as int) >= 2),
{
    let ghost all = node_views(cs@);
    let mut best: Option<usize> = None;
    let mut several: bool = false;
    let mut i: usize = 0;
    while i < cs.len()
        invariant
            i <= cs@.len(),
            all == node_views(cs@),
            places@.len() == cs@.len(),
            forall|k: int|
                0 <= k < cs@.len() ==> places_parents(all, k, #[trigger] places@[k]@),
            flags_tell(all, flags@, done),
            match least_ready(all, done, i as int) {
                Some(k) => best == Some(k as usize) && 0 <= k < i,
                None => best is None,
            },
            several == (ready_count(all, done, i as int) >= 2),
            best is Some <==> ready_count(all, done, i as int) >= 1,
        decreases cs@.len() - i,
    {
        assert(places_parents(all, i as int, places@[i as int]@));
        if check_ready(cs, i, &places[i], flags, Ghost(done)) {
            match best {
                None => {
                    best = Some(i);
                },
                Some(b) => {
                    several = true;
                    assert(all[i as int] == cs@[i as int]@ && all[b as int] == cs@[b as int]@);
                    if cs[i].committer_time < cs[b].committer_time || (cs[i].committer_time
                        == cs[b].committer_time && less_text(&cs[i].oid, &cs[b].oid)) {
                        best = Some(i);
                    }
                },
            }
        }
        i += 1;
    }
    (best, several)
}

/// Put collected commits in order: parents first, and where several commits
/// could be next the earliest by committer time and id. Also tells at how
/// many places there was such a choice.
pub fn sequence_commits_deterministically(commits: &Vec<CommitNode>) -> (r: Result<
    (Vec<String>, usize),
    CliError,
>)
    requires
        distinct_commits(node_views(commits@)),
    ensures
        ({
            let cs = node_views(commits@);
            if bridge_order(cs).len() == cs.len() {
                r matches Ok((order, ties)) && text::texts(order@) == bridge_order(cs) && ties
                    == tie_count(cs, cs.len())
            } else {
                r matches Err(e) && e.is_git_error(
                    unordered_text(bridge_order(cs).len(), cs.len()),
                )
            }
        }),
{
    let ghost cs = node_views(commits@);
    let places = places_of(commits);
    let mut parents: Vec<Vec<usize>> = Vec::new();
    let mut flags: Vec<bool> = Vec::new();
    let mut i: usize = 0;
    while i < commits.len()
        invariant
            i <= commits@.len(),
            cs == node_views(commits@),
            forall|o: Seq<char>|
                #![trigger places@.contains_key(o)]
                places@.contains_key(o) == collected(cs, o),
            forall|o: Seq<char>|
                #![trigger places@[o]]
                places@.contains_key(o) ==> places@[o] < commits@.len()
                    && commits@[places@[o] as int].oid@ == o,
            parents@.len() == i,
            flags@.len() == i,
            forall|k: int| 0 <= k < i ==> places_parents(cs, k, #[trigger] parents@[k]@),
            forall|k: int| 0 <= k < i ==> !#[trigger] flags@[k],
        decreases commits@.len() - i,
    {
        parents.push(parent_places(commits, i, &places));
        flags.push(false);
        i += 1;
    }
    let mut ordered: Vec<String> = Vec::new();
    let mut ties: usize = 0;
    assert(text::texts(ordered@) =~= sequenced(cs, 0));
    assert(flags_tell(cs, flags@, text::texts(ordered@)));
    while ordered.len() < commits.len()
        invariant
            ordered@.len() <= commits@.len(),
            cs == node_views(commits@),
            distinct_commits(cs),
            parents@.len() == cs.len(),
            forall|k: int| 0 <= k < cs.len() ==> places_parents(cs, k, #[trigger] parents@[k]@),
            flags_tell(cs, flags@, text::texts(ordered@)),
            text::texts(ordered@) == sequenced(cs, ordered@.len()),
            ties == tie_count(cs, ordered@.len()),
            ties <= ordered@.len(),
        decreases commits@.len() - ordered@.len(),
    {
        let ghost done = text::texts(ordered@);
        let ghost n = ordered@.len();
        let (best, several) = pick_ready(commits, &parents, &flags, Ghost(done));
        match best {
            None => {
                proof {
                    lemma_stuck(cs, n, cs.len());
                }
                let mut m: String =
                    "bridge sequencing could not order all collected commits (".to_owned();
                m.append(&to_decimal(ordered.len() as u64));
                m.append(" of ");
                m.append(&to_decimal(commits.len() as u64));
                m.append("); the Git graph is cyclic or incomplete");
                assert(done.len() == n);
                return Err(git_error(m));
            },
            Some(b) => {
                if several {
                    ties += 1;
                }
                ordered.push(commits[b].oid.clone());
                flags.set(b, true);
                let ghost now = text::texts(ordered@);
                assert(now =~= done.push(cs[b as int].oid));
                assert forall|k: int| 0 <= k < cs.len() implies #[trigger] flags@[k]
                    == now.contains(cs[k].oid) by {
                    if k == b {
                        assert(now[n as int] == cs[k].oid);
                    } else {
                        assert(cs[k].oid != cs[b as int].oid);
                        if done.contains(cs[k].oid) {
                            let q: int = choose|q: int|
                                0 <= q < done.len() && done[q] == cs[k].oid;
                            assert(now[q] == cs[k].oid);
                        }
                        if now.contains(cs[k].oid) {
                            let q: int = choose|q: int| 0 <= q < now.len() && now[q] == cs[k].oid;
                            assert(q < n);
                            assert(done[q] == cs[k].oid);
                        }
                    }
                }
            },
        }
    }
    assert(text::texts(ordered@).len() == ordered@.len());
    Ok((ordered, ties))
}

/// Whether a commit stands at place `p` that was ready there.
spec fn ready_at(cs: Seq<NodeView>, s: Seq<Seq<char>>, p: int) -> bool {
    exists|i: int|
        0 <= i < cs.len() && cs[i].oid == s[p] && #[trigger] is_ready(cs, s.take(p), i)
}

proof fn lemma_sequenced(cs: Seq<NodeView>, n: nat)
    ensures
        sequenced(cs, n).len() <= n,
        sequenced(cs, n).no_duplicates(),
        forall|p: int|
            0 <= p < sequenced(cs, n).len() ==> #[trigger] ready_at(cs, sequenced(cs, n), p),
    decreases n,
{
    if n > 0 {
        let d = sequenced(cs, (n - 1) as nat);
        let s = sequenced(cs, n);
        lemma_sequenced(cs, (n - 1) as nat);
        lemma_least_ready(cs, d, cs.len() as int);
        match least_ready(cs, d, cs.len() as int) {
            Some(b) => {
                assert(s.take(d.len() as int) =~= d);
                assert(is_ready(cs, s.take(d.len() as int), b));
                assert(!d.contains(cs[b].oid));
                assert forall|p: int| 0 <= p < s.len() implies #[trigger] ready_at(cs, s, p) by {
                    if p < d.len() {
                        assert(ready_at(cs, d, p));
                        assert(s[p] == d[p]);
                        assert(s.take(p) =~= d.take(p));
                        let i: int = choose|i: int|
                            0 <= i < cs.len() && cs[i].oid == d[p] && #[trigger] is_ready(
                                cs,
                                d.take(p),
                                i,
                            );
                        assert(is_ready(cs, s.take(p), i));
                    } else {
                        assert(cs[b].oid == s[p]);
                    }
                }
                assert(s.no_duplicates()) by {
                    assert forall|x: int, y: int|
                        0 <= x < s.len() && 0 <= y < s.len() && x != y implies s[x] != s[y] by {
                        if x < d.len() && y < d.len() {
                            assert(d[x] != d[y]);
                        } else if x < d.len() {
                            assert(d.contains(d[x]));
                        } else {
                            assert(d.contains(d[y]));
                        }
                    }
                }
            },
            None => {},
        }
    }
}

/// In the order of a history, every collected parent of a commit comes
/// before the commit.
pub proof fn parents_come_first(cs: Seq<NodeView>, place: int, i: int, p: int)
    requires
        distinct_commits(cs),
        0 <= place < bridge_order(cs).len(),
        0 <= i < cs.len(),
        cs[i].oid == bridge_order(cs)[place],
        0 <= p < cs[i].parents.len(),
        collected(cs, cs[i].parents[p]),
    ensures
        bridge_order(cs).take(place).contains(cs[i].parents[p]),
{
    lemma_sequenced(cs, cs.len());
    let order = bridge_order(cs);
    assert(ready_at(cs, order, place));
    let k: int = choose|k: int|
        0 <= k < cs.len() && cs[k].oid == order[place] && #[trigger] is_ready(
            cs,
            order.take(place),
            k,
        );
    assert(k == i) by {
        if k < i {
            assert(cs[k].oid != cs[i].oid);
        } else if i < k {
            assert(cs[i].oid != cs[k].oid);
        }
    }
    assert(parent_settled(cs, order.take(place), i, p));
}

/// The ids of a list of commits.
pub open spec fn oids_of(cs: Seq<NodeView>) -> Seq<Seq<char>> {
    cs.map_values(|c: NodeView| c.oid)
}

/// Distinct commits have as many ids as there are commits.
pub proof fn lemma_oid_set(cs: Seq<NodeView>)
    requires
        distinct_commits(cs),
    ensures
        oids_of(cs).to_set().len() == cs.len(),
        oids_of(cs).to_set().finite(),
        forall|o: Seq<char>| oids_of(cs).to_set().contains(o) <==> collected(cs, o),
{
    let os = oids_of(cs);
    assert(os.no_duplicates()) by {
        assert forall|x: int, y: int| 0 <= x < os.len() && 0 <= y < os.len() && x != y implies os[x]
            != os[y] by {
            if x < y {
                assert(cs[x].oid != cs[y].oid);
            } else {
                assert(cs[y].oid != cs[x].oid);
            }
        }
    }
    os.unique_seq_to_set();
    assert forall|o: Seq<char>| os.to_set().contains(o) <==> collected(cs, o) by {
        if os.contains(o) {
            let k: int = choose|k: int| 0 <= k < os.len() && os[k] == o;
            assert(cs[k].oid == o);
        }
        if collected(cs, o) {
            let k: int = choose|k: int| 0 <= k < cs.len() && (#[trigger] cs[k]).oid == o;
            assert(os[k] == o);
        }
    }
}

/// An order of all commits holds each of them exactly once, and nothing
/// else.
pub proof fn order_is_complete(cs: Seq<NodeView>)
    requires
        distinct_commits(cs),
        bridge_order(cs).len() == cs.len(),
    ensures
        bridge_order(cs).no_duplicates(),
        forall|o: Seq<char>| bridge_order(cs).contains(o) <==> collected(cs, o),
{
    let order = bridge_order(cs);
    lemma_sequenced(cs, cs.len());
    lemma_oid_set(cs);
    order.unique_seq_to_set();
    let all = oids_of(cs).to_set();
    assert(order.to_set().subset_of(all)) by {
        assert forall|o: Seq<char>| order.to_set().contains(o) implies all.contains(o) by {
            let p: int = choose|p: int| 0 <= p < order.len() && order[p] == o;
            assert(ready_at(cs, order, p));
            let i: int = choose|i: int|
                0 <= i < cs.len() && cs[i].oid == order[p] && #[trigger] is_ready(
                    cs,
                    order.take(p),
                    i,
                );
            assert(collected(cs, o));
        }
    }
    vstd::set_lib::lemma_subset_equality(order.to_set(), all);
    assert forall|o: Seq<char>| order.contains(o) <==> collected(cs, o) by {
        assert(order.to_set().contains(o) <==> all.contains(o));
    }
}

/// Whether two lists hold the same commits.
pub open spec fn same_commits(a: Seq<NodeView>, b: Seq<NodeView>) -> bool {
    &&& a.len() == b.len()
    &&& forall|i: int| 0 <= i < a.len() ==> b.contains(#[trigger] a[i])
    &&& forall|i: int| 0 <= i < b.len() ==> a.contains(#[trigger] b[i])
}

proof fn lemma_same_collected(a: Seq<NodeView>, b: Seq<NodeView>, o: Seq<char>)
    requires
        same_commits(a, b),
        collected(a, o),
    ensures
        collected(b, o),
{
    let i: int = choose|i: int| 0 <= i < a.len() && (#[trigger] a[i]).oid == o;
    assert(b.contains(a[i]));
    let j: int = choose|j: int| 0 <= j < b.len() && b[j] == a[i];
    assert(b[j].oid == o);
}

proof fn lemma_same_ready(
    a: Seq<NodeView>,
    b: Seq<NodeView>,
    done: Seq<Seq<char>>,
    i: int,
) -> (j: int)
    requires
        same_commits(a, b),
        0 <= i < a.len(),
        is_ready(a, done, i),
    ensures
        0 <= j < b.len(),
        b[j] == a[i],
        is_ready(b, done, j),
{
    assert(b.contains(a[i]));
    let j: int = choose|j: int| 0 <= j < b.len() && b[j] == a[i];
    assert forall|p: int| 0 <= p < b[j].parents.len() implies #[trigger] parent_settled(
        b,
        done,
        j,
        p,
    ) by {
        assert(parent_settled(a, done, i, p));
        if collected(b, b[j].parents[p]) {
            lemma_same_collected(b, a, b[j].parents[p]);
        }
    }
    j
}

proof fn lemma_same_step(a: Seq<NodeView>, b: Seq<NodeView>, done: Seq<Seq<char>>)
    requires
        distinct_commits(a),
        same_commits(a, b),
    ensures
        match (least_ready(a, done, a.len() as int), least_ready(b, done, b.len() as int)) {
            (Some(i), Some(j)) => a[i].oid == b[j].oid,
            (None, None) => true,
            _ => false,
        },
{
    lemma_least_ready(a, done, a.len() as int);
    lemma_least_ready(b, done, b.len() as int);
    match (least_ready(a, done, a.len() as int), least_ready(b, done, b.len() as int)) {
        (Some(i), Some(j)) => {
            let i2 = lemma_same_ready(a, b, done, i);
            let j2 = lemma_same_ready(b, a, done, j);
            assert(!earlier(b[i2], b[j]));
            assert(!earlier(a[j2], a[i]));
            paths::lemma_text_less_total(a[i].oid, b[j].oid);
        },
        (Some(i), None) => {
            let i2 = lemma_same_ready(a, b, done, i);
        },
        (None, Some(j)) => {
            let j2 = lemma_same_ready(b, a, done, j);
        },
        (None, None) => {},
    }
}

proof fn lemma_same_sequence(a: Seq<NodeView>, b: Seq<NodeView>, n: nat)
    requires
        distinct_commits(a),
        same_commits(a, b),
    ensures
        sequenced(a, n) == sequenced(b, n),
    decreases n,
{
    if n > 0 {
        lemma_same_sequence(a, b, (n - 1) as nat);
        lemma_same_step(a, b, sequenced(a, (n - 1) as nat));
    }
}

/// The ids of those of the first `k` commits that are ready.
spec fn ready_ids(cs: Seq<NodeView>, done: Seq<Seq<char>>, k: int) -> Set<Seq<char>> {
    Set::new(
        |o: Seq<char>|
            exists|i: int| 0 <= i < k && cs[i].oid == o && #[trigger] is_ready(cs, done, i),
    )
}

proof fn lemma_ready_ids(cs: Seq<NodeView>, done: Seq<Seq<char>>, k: int)
    requires
        distinct_commits(cs),
        0 <= k <= cs.len(),
    ensures
        ready_ids(cs, done, k).finite(),
        ready_ids(cs, done, k).len() == ready_count(cs, done, k),
    decreases k,
{
    if k == 0 {
        assert(ready_ids(cs, done, 0) =~= Set::empty());
    } else {
        let before = ready_ids(cs, done, k - 1);
        let o = cs[k - 1].oid;
        lemma_ready_ids(cs, done, k - 1);
        if is_ready(cs, done, k - 1) {
            assert(ready_ids(cs, done, k) =~= before.insert(o));
            assert(!before.contains(o));
        } else {
            assert(ready_ids(cs, done, k) =~= before);
        }
    }
}

proof fn lemma_same_ready_ids(a: Seq<NodeView>, b: Seq<NodeView>, done: Seq<Seq<char>>)
    requires
        same_commits(a, b),
    ensures
        ready_ids(a, done, a.len() as int).subset_of(ready_ids(b, done, b.len() as int)),
{
    let ra = ready_ids(a, done, a.len() as int);
    let rb = ready_ids(b, done, b.len() as int);
    assert forall|o: Seq<char>| ra.contains(o) implies rb.contains(o) by {
        let i: int = choose|i: int|
            0 <= i < a.len() && a[i].oid == o && #[trigger] is_ready(a, done, i);
        let j = lemma_same_ready(a, b, done, i);
        assert(is_ready(b, done, j));
    }
}

proof fn lemma_same_ties(a: Seq<NodeView>, b: Seq<NodeView>, n: nat)
    requires
        distinct_commits(a),
        distinct_commits(b),
        same_commits(a, b),
    ensures
        tie_count(a, n) == tie_count(b, n),
    decreases n,
{
    if n > 0 {
        let m = (n - 1) as nat;
        lemma_same_ties(a, b, m);
        lemma_same_sequence(a, b, m);
        let done = sequenced(a, m);
        lemma_ready_ids(a, done, a.len() as int);
        lemma_ready_ids(b, done, b.len() as int);
        lemma_same_ready_ids(a, b, done);
        lemma_same_ready_ids(b, a, done);
        assert(ready_ids(a, done, a.len() as int) =~= ready_ids(b, done, b.len() as int));
    }
}

/// The order depends on which commits were collected, not on the order in
/// which they were collected; so does the number of places with a choice.
pub proof fn collection_order_does_not_matter(a: Seq<NodeView>, b: Seq<NodeView>)
    requires
        distinct_commits(a),
        distinct_commits(b),
        same_commits(a, b),
    ensures
        bridge_order(a) == bridge_order(b),
        tie_count(a, a.len()) == tie_count(b, b.len()),
{
    lemma_same_sequence(a, b, a.len());
    lemma_same_ties(a, b, a.len());
}

/// Whether a rank rises from every collected parent to its child: the
/// history has no cycle.
pub open spec fn ranked(cs: Seq<NodeView>, rank: spec_fn(Seq<char>) -> nat) -> bool {
    forall|i: int, p: int|
        0 <= i < cs.len() && 0 <= p < cs[i].parents.len() && collected(
            cs,
            #[trigger] cs[i].parents[p],
        ) ==> rank(cs[i].parents[p]) < rank(cs[i].oid)
}

proof fn lemma_lowest_is_ready(
    cs: Seq<NodeView>,
    rank: spec_fn(Seq<char>) -> nat,
    done: Seq<Seq<char>>,
    i: int,
) -> (j: int)
    requires
        ranked(cs, rank),
        0 <= i < cs.len(),
        !done.contains(cs[i].oid),
    ensures
        0 <= j < cs.len(),
        is_ready(cs, done, j),
    decreases rank(cs[i].oid),
{
    if is_ready(cs, done, i) {
        i
    } else {
        let p: int = choose|p: int|
            0 <= p < cs[i].parents.len() && !#[trigger] parent_settled(cs, done, i, p);
        let o = cs[i].parents[p];
        let k: int = choose|k: int| 0 <= k < cs.len() && (#[trigger] cs[k]).oid == o;
        assert(rank(cs[i].parents[p]) < rank(cs[i].oid));
        lemma_lowest_is_ready(cs, rank, done, k)
    }
}

proof fn lemma_ranked_goes_on(cs: Seq<NodeView>, rank: spec_fn(Seq<char>) -> nat, n: nat)
    requires
        distinct_commits(cs),
        ranked(cs, rank),
        n <= cs.len(),
    ensures
        sequenced(cs, n).len() == n,
    decreases n,
{
    if n > 0 {
        let d = sequenced(cs, (n - 1) as nat);
        lemma_ranked_goes_on(cs, rank, (n - 1) as nat);
        lemma_sequenced(cs, (n - 1) as nat);
        lemma_least_ready(cs, d, cs.len() as int);
        if least_ready(cs, d, cs.len() as int) is None {
            lemma_oid_set(cs);
            d.unique_seq_to_set();
            let all = oids_of(cs).to_set();
            if forall|i: int| 0 <= i < cs.len() ==> d.contains(#[trigger] cs[i].oid) {
                assert(all.subset_of(d.to_set())) by {
                    assert forall|o: Seq<char>| all.contains(o) implies d.to_set().contains(o) by {
                        let i: int = choose|i: int|
                            0 <= i < cs.len() && (#[trigger] cs[i]).oid == o;
                        assert(d.contains(cs[i].oid));
                    }
                }
                vstd::set_lib::lemma_len_subset(all, d.to_set());
            } else {
                let i: int = choose|i: int|
                    0 <= i < cs.len() && !d.contains(#[trigger] cs[i].oid);
                let j = lemma_lowest_is_ready(cs, rank, d, i);
                assert(is_ready(cs, d, j));
            }
        }
    }
}

/// A history without cycles is always put in order.
pub proof fn acyclic_history_is_sequenced(cs: Seq<NodeView>, rank: spec_fn(Seq<char>) -> nat)
    requires
        distinct_commits(cs),
        ranked(cs, rank),
    ensures
        bridge_order(cs).len() == cs.len(),
{
    lemma_ranked_goes_on(cs, rank, cs.len());
}

/// Whether a commit has a child among `marked`.
pub open spec fn child_marked(
    cs: Seq<NodeView>,
    marked: Set<Seq<char>>,
    oid: Seq<char>,
) -> bool {
    exists|j: int|
        0 <= j < cs.len() && marked.contains((#[trigger] cs[j]).oid) && cs[j].parents.contains(oid)
}

/// The commits from place `k` on that are indexed, or lie below an indexed
/// one.
pub open spec fn below_indexed(cs: Seq<NodeView>, indexed: Seq<Seq<char>>, k: int) -> Set<
    Seq<char>,
>
    decreases cs.len() - k,
{
    if k >= cs.len() || k < 0 {
        Set::empty()
    } else {
        let later = below_indexed(cs, indexed, k + 1);
        if indexed.contains(cs[k].oid) || child_marked(cs, later, cs[k].oid) {
            later.insert(cs[k].oid)
        } else {
            later
        }
    }
}

/// The first `k` commits that are not indexed but lie below an indexed one.
pub open spec fn deepened(cs: Seq<NodeView>, indexed: Seq<Seq<char>>, k: int) -> Seq<Seq<char>>
    decreases k,
{
    if k <= 0 {
        seq![]
    } else {
        let head = deepened(cs, indexed, k - 1);
        if !indexed.contains(cs[k - 1].oid) && below_indexed(cs, indexed, 0).contains(
            cs[k - 1].oid,
        ) {
            head.push(cs[k - 1].oid)
        } else {
            head
        }
    }
}

/// The collected commit with this id.
pub open spec fn node_named(cs: Seq<NodeView>, oid: Seq<char>) -> NodeView {
    cs[choose|i: int| 0 <= i < cs.len() && (#[trigger] cs[i]).oid == oid]
}

/// The collected commits with these ids.
pub open spec fn nodes_named(cs: Seq<NodeView>, ids: Seq<Seq<char>>) -> Seq<NodeView> {
    ids.map_values(|id: Seq<char>| node_named(cs, id))
}

/// The collected commits in the order of these ids.
pub fn nodes_in_order(commits: &Vec<CommitNode>, order: &Vec<String>) -> (r: Vec<CommitNode>)
    requires
        distinct_commits(node_views(commits@)),
        forall|k: int|
            0 <= k < order@.len() ==> collected(node_views(commits@), (#[trigger] order@[k])@),
    ensures
        node_views(r@) == nodes_named(node_views(commits@), text::texts(order@)),
{
    let ghost cs = node_views(commits@);
    let ghost ids = text::texts(order@);
    let ghost want = nodes_named(cs, ids);
    let places = places_of(commits);
    let mut out: Vec<CommitNode> = Vec::new();
    let mut i: usize = 0;
    assert(node_views(out@) =~= want.take(0));
    while i < order.len()
        invariant
            i <= order@.len(),
            cs == node_views(commits@),
            ids == text::texts(order@),
            want == nodes_named(cs, ids),
            distinct_commits(cs),
            forall|k: int| 0 <= k < order@.len() ==> collected(cs, (#[trigger] order@[k])@),
            forall|o: Seq<char>|
                #![trigger places@.contains_key(o)]
                places@.contains_key(o) == collected(cs, o),
            forall|o: Seq<char>|
                #![trigger places@[o]]
                places@.contains_key(o) ==> places@[o] < commits@.len()
                    && commits@[places@[o] as int].oid@ == o,
            node_views(out@) == want.take(i as int),
        decreases order@.len() - i,
    {
        let ghost id = order@[i as int]@;
        assert(ids[i as int] == id);
        assert(collected(cs, id));
        assert(places@.contains_key(id));
        let at: usize = match places.get(order[i].as_str()) {
            Some(k) => *k,
            None => 0,
        };
        assert(at == places@[id]);
        assert(cs[at as int] == commits@[at as int]@);
        proof {
            let j = choose|j: int| 0 <= j < cs.len() && (#[trigger] cs[j]).oid == id;
            if j < at {
                assert(cs[j].oid != cs[at as int].oid);
            } else if at < j {
                assert(cs[at as int].oid != cs[j].oid);
            }
        }
        let ghost before = node_views(out@);
        let node = CommitNode {
            oid: commits[at].oid.clone(),
            committer_time: commits[at].committer_time,
            parents: clone_texts(&commits[at].parents),
        };
        let ghost nv = node@;
        assert(nv =~= cs[at as int]);
        out.push(node);
        assert(node_views(out@) =~= before.push(nv));
        assert(node_views(out@) =~= want.take(i as int + 1));
        i += 1;
    }
    assert(want.take(i as int) =~= want);
    out
}

/// Why a deepened history is refused.
pub open spec fn deepened_text(ds: Seq<Seq<char>>) -> Seq<char> {
    "Git history deepened below already-imported commits: "@ + text::decimal(ds.len())
        + " unindexed commit(s) (oldest "@ + ds.last()
        + ") sit below indexed descendants; deepening must never silently reinterpret prior bridge sequencing. Import the deepened history into a fresh view or explicitly rebuild the affected view."@
}

fn has_marked_child(cs: &Vec<CommitNode>, marked: &StringHashMap<bool>, oid: &String) -> (r: bool)
    ensures
        r == child_marked(node_views(cs@), marked@.dom(), oid@),
{
    let ghost all = node_views(cs@);
    let mut j: usize = 0;
    while j < cs.len()
        invariant
            j <= cs@.len(),
            all == node_views(cs@),
            forall|k: int|
                0 <= k < j ==> !(marked@.contains_key((#[trigger] all[k]).oid)
                    && all[k].parents.contains(oid@)),
        decreases cs@.len() - j,
    {
        assert(all[j as int] == cs@[j as int]@);
        if marked.contains_key(&cs[j].oid) && contains_text(&cs[j].parents, oid) {
            assert(marked@.dom().contains(all[j as int].oid));
            return true;
        }
        j += 1;
    }
    false
}

/// Refuse a history that was deepened below commits already imported: a
/// commit that is not indexed but has an indexed descendant.
pub fn detect_deepened_history(ordered: &Vec<CommitNode>, indexed_shas: &Vec<String>) -> (r: Result<
    usize,
    CliError,
>)
    ensures
        ({
            let cs = node_views(ordered@);
            let ds = deepened(cs, text::texts(indexed_shas@), cs.len() as int);
            if ds.len() == 0 {
                r == Ok::<usize, CliError>(0)
            } else {
                r matches Err(e) && e.is_git_error(deepened_text(ds))
            }
        }),
{
    let ghost cs = node_views(ordered@);
    let ghost ix = text::texts(indexed_shas@);
    let mut marked: StringHashMap<bool> = StringHashMap::new();
    let mut k: usize = ordered.len();
    assert(marked@.dom() =~= below_indexed(cs, ix, k as int));
    while k > 0
        invariant
            k <= ordered@.len(),
            cs == node_views(ordered@),
            ix == text::texts(indexed_shas@),
            marked@.dom() == below_indexed(cs, ix, k as int),
        decreases k,
    {
        k -= 1;
        assert(cs[k as int] == ordered@[k as int]@);
        let ghost later = marked@.dom();
        if contains_text(indexed_shas, &ordered[k].oid) || has_marked_child(
            ordered,
            &marked,
            &ordered[k].oid,
        ) {
            marked.insert(ordered[k].oid.clone(), true);
            assert(marked@.dom() =~= later.insert(cs[k as int].oid));
        }
        assert(marked@.dom() =~= below_indexed(cs, ix, k as int));
    }
    let mut count: usize = 0;
    let mut last: String = String::new();
    let mut i: usize = 0;
    while i < ordered.len()
        invariant
            i <= ordered@.len(),
            count <= i,
            cs == node_views(ordered@),
            ix == text::texts(indexed_shas@),
            marked@.dom() == below_indexed(cs, ix, 0),
            count == deepened(cs, ix, i as int).len(),
            count > 0 ==> last@ == deepened(cs, ix, i as int).last(),
        decreases ordered@.len() - i,
    {
        assert(cs[i as int] == ordered@[i as int]@);
        if !contains_text(indexed_shas, &ordered[i].oid) && marked.contains_key(&ordered[i].oid) {
            assert(marked@.dom().contains(cs[i as int].oid));
            count += 1;
            last = ordered[i].oid.clone();
        }
        i += 1;
    }
    if count == 0 {
        return Ok(0);
    }
    let mut m: String = "Git history deepened below already-imported commits: ".to_owned();
    m.append(&to_decimal(count as u64));
    m.append(" unindexed commit(s) (oldest ");
    m.append(&last);
    m.append(
        ") sit below indexed descendants; deepening must never silently reinterpret prior bridge sequencing. Import the deepened history into a fresh view or explicitly rebuild the affected view.",
    );
    Err(git_error(m))
}

/// Whether a list of places runs down the history: each commit is a parent
/// of the next, which comes later.
pub open spec fn is_chain(cs: Seq<NodeView>, chain: Seq<int>) -> bool {
    &&& chain.len() > 0
    &&& forall|x: int| 0 <= x < chain.len() ==> 0 <= #[trigger] chain[x] < cs.len()
    &&& forall|x: int, y: int|
        0 <= x && y == x + 1 && y < chain.len() ==> #[trigger] chain[x] < #[trigger] chain[y]
            && cs[chain[y]].parents.contains(cs[chain[x]].oid)
}

proof fn lemma_below_grows(cs: Seq<NodeView>, ix: Seq<Seq<char>>, a: int, b: int)
    requires
        0 <= a <= b <= cs.len(),
    ensures
        below_indexed(cs, ix, b).subset_of(below_indexed(cs, ix, a)),
    decreases b - a,
{
    if a < b {
        lemma_below_grows(cs, ix, a + 1, b);
    }
}

proof fn lemma_chain_is_below(cs: Seq<NodeView>, ix: Seq<Seq<char>>, chain: Seq<int>)
    requires
        is_chain(cs, chain),
        ix.contains(cs[chain.last()].oid),
    ensures
        below_indexed(cs, ix, chain[0]).contains(cs[chain[0]].oid),
    decreases chain.len(),
{
    let a = chain[0];
    if chain.len() > 1 {
        let rest = chain.drop_first();
        assert(rest.len() > 0);
        assert forall|x: int| 0 <= x < rest.len() implies 0 <= #[trigger] rest[x] < cs.len() by {
            assert(rest[x] == chain[x + 1]);
        }
        assert forall|x: int, y: int|
            0 <= x && y == x + 1 && y < rest.len() implies #[trigger] rest[x] < #[trigger] rest[y]
            && cs[rest[y]].parents.contains(cs[rest[x]].oid) by {
            assert(rest[x] == chain[x + 1]);
            assert(rest[y] == chain[y + 1]);
        }
        assert(rest.last() == chain.last());
        lemma_chain_is_below(cs, ix, rest);
        let b = rest[0];
        assert(b == chain[1]);
        assert(chain[0] < chain[1] && cs[chain[1]].parents.contains(cs[chain[0]].oid));
        lemma_below_grows(cs, ix, a + 1, b);
        let later = below_indexed(cs, ix, a + 1);
        assert(later.contains(cs[b].oid));
        assert(child_marked(cs, later, cs[a].oid));
    }
}

proof fn lemma_deepened_holds(cs: Seq<NodeView>, ix: Seq<Seq<char>>, i: int, k: int)
    requires
        0 <= i < k <= cs.len(),
        !ix.contains(cs[i].oid),
        below_indexed(cs, ix, 0).contains(cs[i].oid),
    ensures
        deepened(cs, ix, k).len() > 0,
    decreases k,
{
    if i < k - 1 {
        lemma_deepened_holds(cs, ix, i, k - 1);
    }
}

/// A commit that is not indexed but has an indexed descendant makes the
/// history a deepened one.
pub proof fn deepening_is_noticed(cs: Seq<NodeView>, indexed: Seq<Seq<char>>, chain: Seq<int>)
    requires
        is_chain(cs, chain),
        !indexed.contains(cs[chain[0]].oid),
        indexed.contains(cs[chain.last()].oid),
    ensures
        deepened(cs, indexed, cs.len() as int).len() > 0,
{
    lemma_chain_is_below(cs, indexed, chain);
    lemma_below_grows(cs, indexed, 0, chain[0]);
    lemma_deepened_holds(cs, indexed, chain[0], cs.len() as int);
}

/// Whether every collected parent of an indexed commit is indexed.
pub open spec fn indexed_to_the_root(cs: Seq<NodeView>, indexed: Seq<Seq<char>>) -> bool {
    forall|i: int, p: int|
        0 <= i < cs.len() && 0 <= p < cs[i].parents.len() && indexed.contains(cs[i].oid)
            && collected(cs, cs[i].parents[p]) ==> indexed.contains(#[trigger] cs[i].parents[p])
}

proof fn lemma_only_indexed_below(cs: Seq<NodeView>, ix: Seq<Seq<char>>, k: int)
    requires
        0 <= k <= cs.len(),
        indexed_to_the_root(cs, ix),
    ensures
        forall|o: Seq<char>| #[trigger] below_indexed(cs, ix, k).contains(o) ==> ix.contains(o),
    decreases cs.len() - k,
{
    if k < cs.len() {
        lemma_only_indexed_below(cs, ix, k + 1);
        let later = below_indexed(cs, ix, k + 1);
        if child_marked(cs, later, cs[k].oid) {
            let j: int = choose|j: int|
                0 <= j < cs.len() && later.contains((#[trigger] cs[j]).oid)
                    && cs[j].parents.contains(cs[k].oid);
            let p: int = choose|p: int| 0 <= p < cs[j].parents.len() && cs[j].parents[p] == cs[k].oid;
            assert(collected(cs, cs[k].oid));
            assert(ix.contains(cs[j].parents[p]));
        }
    }
}

proof fn lemma_nothing_deepened(cs: Seq<NodeView>, ix: Seq<Seq<char>>, k: int)
    requires
        0 <= k <= cs.len(),
        forall|o: Seq<char>| #[trigger] below_indexed(cs, ix, 0).contains(o) ==> ix.contains(o),
    ensures
        deepened(cs, ix, k).len() == 0,
    decreases k,
{
    if k > 0 {
        lemma_nothing_deepened(cs, ix, k - 1);
    }
}

/// Where everything below the indexed commits is indexed, new commits above
/// them are ordinary work.
pub proof fn new_commits_are_no_deepening(cs: Seq<NodeView>, indexed: Seq<Seq<char>>)
    requires
        indexed_to_the_root(cs, indexed),
    ensures
        deepened(cs, indexed, cs.len() as int).len() == 0,
{
    lemma_only_indexed_below(cs, indexed, 0);
    lemma_nothing_deepened(cs, indexed, cs.len() as int);
}

proof fn lemma_taken_least(cs: Seq<NodeView>, n: nat, p: int)
    requires
        0 <= p < sequenced(cs, n).len(),
    ensures
        least_ready(cs, sequenced(cs, n).take(p), cs.len() as int) matches Some(k) && cs[k].oid
            == sequenced(cs, n)[p],
    decreases n,
{
    let d = sequenced(cs, (n - 1) as nat);
    let s = sequenced(cs, n);
    if p < d.len() {
        lemma_taken_least(cs, (n - 1) as nat, p);
        assert(s.take(p) =~= d.take(p));
        assert(s[p] == d[p]);
    } else {
        assert(s.take(p) =~= d);
    }
}

/// Older commits come first: where a commit takes its place, every other one
/// that could have taken it, its parents being done, is younger, by the time
/// of its committer and then by its id.
pub proof fn older_commits_come_first(cs: Seq<NodeView>, place: int, i: int, j: int)
    requires
        distinct_commits(cs),
        0 <= place < bridge_order(cs).len(),
        0 <= i < cs.len(),
        cs[i].oid == bridge_order(cs)[place],
        0 <= j < cs.len(),
        j != i,
        !bridge_order(cs).take(place).contains(cs[j].oid),
        forall|p: int|
            0 <= p < cs[j].parents.len() && collected(cs, #[trigger] cs[j].parents[p])
                ==> bridge_order(cs).take(place).contains(cs[j].parents[p]),
    ensures
        cs[i].committer_time < cs[j].committer_time || cs[i].committer_time
            == cs[j].committer_time && paths::text_less(cs[i].oid, cs[j].oid),
{
    let order = bridge_order(cs);
    let done = order.take(place);
    lemma_taken_least(cs, cs.len(), place);
    lemma_least_ready(cs, done, cs.len() as int);
    let k = least_ready(cs, done, cs.len() as int)->0;
    assert(k == i) by {
        if k < i {
            assert(cs[k].oid != cs[i].oid);
        } else if i < k {
            assert(cs[i].oid != cs[k].oid);
        }
    }
    assert(is_ready(cs, done, j)) by {
        assert forall|p: int| 0 <= p < cs[j].parents.len() implies #[trigger] parent_settled(
            cs,
            done,
            j,
            p,
        ) by {
            assert(cs[j].parents[p] == cs[j].parents[p]);
        }
    }
    assert(cs[i].oid != cs[j].oid) by {
        if i < j {
            assert(cs[i].oid != cs[j].oid);
        } else {
            assert(cs[j].oid != cs[i].oid);
        }
    }
    paths::lemma_text_less_total(cs[i].oid, cs[j].oid);
}

/// Whether commits stand in one line: each names the one before it as a
/// parent, and no collected commit but earlier ones.
pub open spec fn in_line(cs: Seq<NodeView>) -> bool {
    &&& distinct_commits(cs)
    &&& forall|i: int| 1 <= i < cs.len() ==> (#[trigger] cs[i]).parents.contains(cs[i - 1].oid)
    &&& forall|i: int, p: int|
        0 <= i < cs.len() && 0 <= p < cs[i].parents.len() && collected(
            cs,
            #[trigger] cs[i].parents[p],
        ) ==> oids_of(cs).take(i).contains(cs[i].parents[p])
}

proof fn lemma_one_is_ready(cs: Seq<NodeView>, n: int, k: int)
    requires
        in_line(cs),
        0 <= n < cs.len(),
        0 <= k <= cs.len(),
    ensures
        ready_count(cs, oids_of(cs).take(n), k) == (if k > n {
            1nat
        } else {
            0nat
        }),
        least_ready(cs, oids_of(cs).take(n), k) == (if k > n {
            Some(n)
        } else {
            None
        }),
    decreases k,
{
    if k > 0 {
        lemma_one_is_ready(cs, n, k - 1);
        let done = oids_of(cs).take(n);
        let j = k - 1;
        if j < n {
            assert(done[j] == cs[j].oid);
            assert(done.contains(cs[j].oid));
            assert(!is_ready(cs, done, j));
        } else if j == n {
            assert(!done.contains(cs[j].oid)) by {
                if done.contains(cs[j].oid) {
                    let i = choose|i: int| 0 <= i < done.len() && done[i] == cs[j].oid;
                    assert(done[i] == cs[i].oid);
                    assert(cs[i].oid != cs[j].oid);
                }
            }
            assert forall|p: int| 0 <= p < cs[j].parents.len() implies #[trigger] parent_settled(
                cs,
                done,
                j,
                p,
            ) by {
                assert(cs[j].parents[p] == cs[j].parents[p]);
            }
            assert(is_ready(cs, done, j));
        } else {
            assert(cs[j].parents.contains(cs[j - 1].oid));
            let p = choose|p: int| 0 <= p < cs[j].parents.len() && cs[j].parents[p] == cs[j - 1].oid;
            assert(!done.contains(cs[j - 1].oid)) by {
                if done.contains(cs[j - 1].oid) {
                    let i = choose|i: int| 0 <= i < done.len() && done[i] == cs[j - 1].oid;
                    assert(done[i] == cs[i].oid);
                    assert(cs[i].oid != cs[j - 1].oid);
                }
            }
            assert(collected(cs, cs[j].parents[p])) by {
                assert(cs[j - 1].oid == cs[j].parents[p]);
            }
            assert(!parent_settled(cs, done, j, p));
            assert(!is_ready(cs, done, j));
        }
    }
}

proof fn lemma_line_in_order(cs: Seq<NodeView>, n: nat)
    requires
        in_line(cs),
        n <= cs.len(),
    ensures
        sequenced(cs, n) == oids_of(cs).take(n as int),
        tie_count(cs, n) == 0,
    decreases n,
{
    if n == 0 {
        assert(oids_of(cs).take(0) =~= seq![]);
    } else {
        lemma_line_in_order(cs, (n - 1) as nat);
        lemma_one_is_ready(cs, n - 1, cs.len() as int);
        assert(oids_of(cs).take(n as int) =~= oids_of(cs).take(n - 1).push(cs[n - 1].oid));
    }
}

/// A line of commits stays a line: commits that follow one another are
/// ordered as they follow, whatever their times, and no tie is counted.
pub proof fn a_line_of_commits_keeps_its_order(cs: Seq<NodeView>)
    requires
        in_line(cs),
    ensures
        bridge_order(cs) == oids_of(cs),
        tie_count(cs, cs.len()) == 0,
{
    lemma_line_in_order(cs, cs.len());
    assert(oids_of(cs).take(cs.len() as int) =~= oids_of(cs));
}

} // verus!
