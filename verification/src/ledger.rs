//! The ledger of an import run: which changes make up the interpreted state
//! of a Git commit, and which changes of a view it must not see.
use crate::graph;
use crate::graph::{insert_hash, ContentHash};
use crate::paths::PathMap;
use crate::sequence;
use crate::sequence::CommitNode;
use crate::text;
use crate::text::{contains_text, to_lower};
use vstd::prelude::*;

verus! {

/// Whether each commit of a path names the next one as a parent.
pub open spec fn is_path(cs: Seq<sequence::NodeView>, path: Seq<Seq<char>>) -> bool {
    &&& path.len() > 0
    &&& forall|x: int, y: int|
        0 <= x && y == x + 1 && y < path.len() ==> names_parent(
            cs,
            #[trigger] path[x],
            #[trigger] path[y],
        )
}

/// Whether the commit `a` is recorded with the parent `b`.
pub open spec fn names_parent(cs: Seq<sequence::NodeView>, a: Seq<char>, b: Seq<char>) -> bool {
    exists|i: int| 0 <= i < cs.len() && (#[trigger] cs[i]).oid == a && cs[i].parents.contains(b)
}

/// Whether `b` is `a` or an ancestor of it.
pub open spec fn reaches(cs: Seq<sequence::NodeView>, a: Seq<char>, b: Seq<char>) -> bool {
    exists|path: Seq<Seq<char>>| #[trigger]
        is_path(cs, path) && path[0] == a && path.last() == b
}

proof fn lemma_reaches_self(cs: Seq<sequence::NodeView>, a: Seq<char>)
    ensures
        reaches(cs, a, a),
{
    let path = seq![a];
    assert(is_path(cs, path));
}

proof fn lemma_reaches_parent(
    cs: Seq<sequence::NodeView>,
    a: Seq<char>,
    b: Seq<char>,
    c: Seq<char>,
)
    requires
        reaches(cs, a, b),
        names_parent(cs, b, c),
    ensures
        reaches(cs, a, c),
{
    let path = choose|path: Seq<Seq<char>>| #[trigger]
        is_path(cs, path) && path[0] == a && path.last() == b;
    let longer = path.push(c);
    assert forall|x: int, y: int| 0 <= x && y == x + 1 && y < longer.len() implies names_parent(
        cs,
        #[trigger] longer[x],
        #[trigger] longer[y],
    ) by {
        if y < path.len() {
            assert(names_parent(cs, path[x], path[y]));
        }
    }
    assert(is_path(cs, longer));
    assert(longer.last() == c);
}

proof fn lemma_closed_holds_all(
    cs: Seq<sequence::NodeView>,
    found: Seq<Seq<char>>,
    path: Seq<Seq<char>>,
)
    requires
        is_path(cs, path),
        found.contains(path[0]),
        forall|a: Seq<char>, b: Seq<char>|
            found.contains(a) && #[trigger] names_parent(cs, a, b) ==> found.contains(b),
    ensures
        found.contains(path.last()),
    decreases path.len(),
{
    if path.len() > 1 {
        let head = path.drop_last();
        assert forall|x: int, y: int| 0 <= x && y == x + 1 && y < head.len() implies names_parent(
            cs,
            #[trigger] head[x],
            #[trigger] head[y],
        ) by {
            assert(names_parent(cs, path[x], path[y]));
        }
        lemma_closed_holds_all(cs, found, head);
        assert(names_parent(cs, path[path.len() - 2], path[path.len() - 1]));
    }
}

/// The place of a commit.
fn find_commit(commits: &Vec<CommitNode>, oid: &String) -> (r: Option<usize>)
    ensures
        match r {
            Some(i) => i < commits@.len() && commits@[i as int].oid@ == oid@,
            None => !sequence::collected(sequence::node_views(commits@), oid@),
        },
{
    let ghost cs = sequence::node_views(commits@);
    let mut i: usize = 0;
    while i < commits.len()
        invariant
            i <= commits@.len(),
            cs == sequence::node_views(commits@),
            forall|k: int| 0 <= k < i ==> (#[trigger] cs[k]).oid != oid@,
        decreases commits@.len() - i,
    {
        assert(cs[i as int] == commits@[i as int]@);
        if commits[i].oid == *oid {
            return Some(i);
        }
        i += 1;
    }
    None
}

/// Add the texts of `more` that the list does not hold yet, in turn.
fn add_new_texts(list: &mut Vec<String>, more: &Vec<String>)
    requires
        text::texts(old(list)@).no_duplicates(),
    ensures
        text::texts(final(list)@).no_duplicates(),
        old(list)@.len() <= final(list)@.len(),
        final(list)@.take(old(list)@.len() as int) == old(list)@,
        forall|o: Seq<char>|
            #![trigger text::texts(final(list)@).contains(o)]
            text::texts(final(list)@).contains(o) <==> text::texts(old(list)@).contains(o)
                || text::texts(more@).contains(o),
{
    let ghost start = list@;
    let ghost sv = text::texts(list@);
    let ghost mv = text::texts(more@);
    let mut i: usize = 0;
    assert(list@.take(start.len() as int) =~= start);
    assert forall|o: Seq<char>| #![trigger sv.contains(o)] sv.contains(o) <==> sv.contains(o)
        || mv.take(0).contains(o) by {}
    while i < more.len()
        invariant
            i <= more@.len(),
            mv == text::texts(more@),
            sv == text::texts(start),
            start.len() <= list@.len(),
            list@.take(start.len() as int) == start,
            text::texts(list@).no_duplicates(),
            forall|o: Seq<char>|
                #![trigger text::texts(list@).contains(o)]
                text::texts(list@).contains(o) <==> sv.contains(o) || mv.take(i as int).contains(
                    o,
                ),
        decreases more@.len() - i,
    {
        let ghost before = list@;
        let ghost bv = text::texts(list@);
        let known = contains_text(list, &more[i]);
        if !known {
            list.push(more[i].clone());
            assert(list@.take(start.len() as int) =~= before.take(start.len() as int));
            assert(text::texts(list@) =~= bv.push(mv[i as int]));
            assert(text::texts(list@).no_duplicates()) by {
                let nv = text::texts(list@);
                assert forall|x: int, y: int|
                    0 <= x < nv.len() && 0 <= y < nv.len() && x != y implies nv[x] != nv[y] by {
                    if x < bv.len() && y < bv.len() {
                        assert(bv[x] != bv[y]);
                    } else if x < bv.len() {
                        assert(bv.contains(bv[x]));
                    } else {
                        assert(bv.contains(bv[y]));
                    }
                }
            }
        }
        let ghost nv = text::texts(list@);
        assert forall|o: Seq<char>| #![trigger nv.contains(o)] nv.contains(o) <==> sv.contains(o)
            || mv.take(i as int + 1).contains(o) by {
            lemma_push_contains(mv.take(i as int), mv[i as int], o);
            assert(mv.take(i as int + 1) =~= mv.take(i as int).push(mv[i as int]));
            if !known {
                lemma_push_contains(bv, mv[i as int], o);
            }
            assert(bv.contains(o) <==> sv.contains(o) || mv.take(i as int).contains(o));
        }
        i += 1;
    }
    assert(mv.take(more@.len() as int) =~= mv);
}

proof fn lemma_push_contains(s: Seq<Seq<char>>, x: Seq<char>, o: Seq<char>)
    ensures
        s.push(x).contains(o) <==> s.contains(o) || o == x,
{
    if s.contains(o) {
        let k: int = choose|k: int| 0 <= k < s.len() && s[k] == o;
        assert(s.push(x)[k] == o);
    }
    if o == x {
        assert(s.push(x)[s.len() as int] == o);
    }
    if s.push(x).contains(o) {
        let k: int = choose|k: int| 0 <= k < s.push(x).len() && s.push(x)[k] == o;
        if k < s.len() {
            assert(s[k] == o);
        }
    }
}

proof fn lemma_bounded(cs: Seq<sequence::NodeView>, found: Seq<Seq<char>>, n: int)
    requires
        sequence::distinct_commits(cs),
        0 <= n <= found.len(),
        found.no_duplicates(),
        forall|k: int| 0 <= k < n ==> sequence::collected(cs, #[trigger] found[k]),
    ensures
        n <= cs.len(),
{
    let head = found.take(n);
    assert(head.no_duplicates());
    head.unique_seq_to_set();
    sequence::lemma_oid_set(cs);
    let all = sequence::oids_of(cs).to_set();
    assert(head.to_set().subset_of(all)) by {
        assert forall|o: Seq<char>| head.to_set().contains(o) implies all.contains(o) by {
            let k: int = choose|k: int| 0 <= k < head.len() && head[k] == o;
            assert(sequence::collected(cs, found[k]));
        }
    }
    vstd::set_lib::lemma_len_subset(head.to_set(), all);
}

/// The complete ancestry of a commit, the commit itself first. `Err` with a
/// commit of it that is not recorded, if there is one.
pub fn ancestry_of(commits: &Vec<CommitNode>, sha: &str) -> (r: Result<Vec<String>, String>)
    requires
        sequence::distinct_commits(sequence::node_views(commits@)),
    ensures
        ({
            let cs = sequence::node_views(commits@);
            match r {
                Ok(found) => text::texts(found@).no_duplicates() && (forall|o: Seq<char>|
                    #![trigger text::texts(found@).contains(o)]
                    text::texts(found@).contains(o) <==> reaches(cs, sha@, o)) && (forall|
                    o: Seq<char>,
                |
                    #![trigger reaches(cs, sha@, o)]
                    reaches(cs, sha@, o) ==> sequence::collected(cs, o)),
                Err(missing) => reaches(cs, sha@, missing@) && !sequence::collected(
                    cs,
                    missing@,
                ),
            }
        }),
{
    let ghost cs = sequence::node_views(commits@);
    let mut found: Vec<String> = Vec::new();
    found.push(sha.to_owned());
    let mut next: usize = 0;
    proof {
        lemma_reaches_self(cs, sha@);
        assert(text::texts(found@) =~= seq![sha@]);
    }
    while next < found.len()
        invariant
            next <= found@.len(),
            next <= cs.len(),
            found@.len() > 0,
            cs == sequence::node_views(commits@),
            sequence::distinct_commits(cs),
            found@[0]@ == sha@,
            text::texts(found@).no_duplicates(),
            forall|o: Seq<char>|
                #![trigger text::texts(found@).contains(o)]
                text::texts(found@).contains(o) ==> reaches(cs, sha@, o),
            forall|k: int| 0 <= k < next ==> sequence::collected(cs, #[trigger] found@[k]@),
            forall|k: int, b: Seq<char>|
                0 <= k < next && #[trigger] names_parent(cs, found@[k]@, b) ==> text::texts(
                    found@,
                ).contains(b),
        decreases cs.len() + 1 - next,
    {
        let ghost before = found@;
        let ghost bv = text::texts(found@);
        let ghost here = found@[next as int]@;
        assert(bv[next as int] == here);
        assert(bv.contains(here));
        match find_commit(commits, &found[next]) {
            None => {
                return Err(found[next].clone());
            },
            Some(i) => {
                let ghost ps = text::texts(commits@[i as int].parents@);
                assert(cs[i as int].parents == ps && cs[i as int].oid == here);
                add_new_texts(&mut found, &commits[i].parents);
                let ghost fv = text::texts(found@);
                assert forall|k: int| 0 <= k < before.len() implies found@[k] == before[k] by {
                    assert(found@.take(before.len() as int)[k] == before[k]);
                }
                assert forall|b: Seq<char>| names_parent(cs, here, b) implies ps.contains(b) by {
                    let j: int = choose|j: int|
                        0 <= j < cs.len() && (#[trigger] cs[j]).oid == here
                            && cs[j].parents.contains(b);
                    if j < i {
                        assert(cs[j].oid != cs[i as int].oid);
                    } else if i < j {
                        assert(cs[i as int].oid != cs[j].oid);
                    }
                }
                assert forall|o: Seq<char>| #![trigger fv.contains(o)] fv.contains(o) implies reaches(
                    cs,
                    sha@,
                    o,
                ) by {
                    if !bv.contains(o) {
                        assert(ps.contains(o));
                        assert(names_parent(cs, here, o));
                        lemma_reaches_parent(cs, sha@, here, o);
                    }
                }
                assert(sequence::collected(cs, here));
                assert forall|k: int, b: Seq<char>|
                    0 <= k < next + 1 && #[trigger] names_parent(
                        cs,
                        found@[k]@,
                        b,
                    ) implies fv.contains(b) by {
                    if k < next {
                        assert(names_parent(cs, before[k]@, b));
                        assert(bv.contains(b));
                    } else {
                        assert(ps.contains(b));
                    }
                }
                assert forall|k: int| 0 <= k < next + 1 implies sequence::collected(
                    cs,
                    #[trigger] found@[k]@,
                ) by {
                    if k < next {
                        assert(sequence::collected(cs, before[k]@));
                    }
                }
                proof {
                    assert forall|k: int| 0 <= k < next + 1 implies sequence::collected(
                        cs,
                        #[trigger] fv[k],
                    ) by {
                        assert(fv[k] == found@[k]@);
                    }
                    lemma_bounded(cs, fv, next + 1);
                }
            },
        }
        next += 1;
    }
    let ghost fv = text::texts(found@);
    proof {
        assert forall|a: Seq<char>, b: Seq<char>|
            fv.contains(a) && #[trigger] names_parent(cs, a, b) implies fv.contains(b) by {
            let k: int = choose|k: int| 0 <= k < fv.len() && fv[k] == a;
            assert(names_parent(cs, found@[k]@, b));
        }
        assert(fv[0] == sha@);
        assert(fv.contains(sha@));
        assert forall|o: Seq<char>| #![trigger reaches(cs, sha@, o)] reaches(
            cs,
            sha@,
            o,
        ) implies fv.contains(o) && sequence::collected(cs, o) by {
            let path = choose|path: Seq<Seq<char>>| #[trigger]
                is_path(cs, path) && path[0] == sha@ && path.last() == o;
            lemma_closed_holds_all(cs, fv, path);
            let k: int = choose|k: int| 0 <= k < fv.len() && fv[k] == o;
            assert(sequence::collected(cs, found@[k]@));
        }
    }
    Ok(found)
}

/// What a repository knows of one commit.
#[derive(Debug)]
pub struct ClosureFacts {
    /// The closure recorded when the commit was imported.
    pub persisted: Option<Vec<ContentHash>>,
    /// The change that the commit became.
    pub checked: Option<ContentHash>,
    /// The changes that this change depends on.
    pub dependencies: Vec<ContentHash>,
}

/// The changes that one commit itself brings into a closure.
pub open spec fn own_share(f: ClosureFacts) -> Set<ContentHash> {
    let base = match f.persisted {
        Some(p) => p@.to_set(),
        None => if f.checked is Some {
            f.dependencies@.to_set()
        } else {
            Set::empty()
        },
    };
    match f.checked {
        Some(h) => base.insert(h),
        None => base,
    }
}

/// The changes that a commit brings into the closure of a descendant: its
/// remembered closure, or else its own share.
pub open spec fn share_of(
    closures: Map<Seq<char>, Set<ContentHash>>,
    facts: Map<Seq<char>, ClosureFacts>,
    sha: Seq<char>,
) -> Set<ContentHash> {
    if closures.contains_key(sha) {
        closures[sha]
    } else if facts.contains_key(sha) {
        own_share(facts[sha])
    } else {
        Set::empty()
    }
}

/// The interpreted closure of a commit: what it and all its ancestors bring.
pub open spec fn closure_of(
    cs: Seq<sequence::NodeView>,
    closures: Map<Seq<char>, Set<ContentHash>>,
    facts: Map<Seq<char>, ClosureFacts>,
    sha: Seq<char>,
) -> Set<ContentHash> {
    if closures.contains_key(sha) {
        closures[sha]
    } else {
        Set::new(
            |h: ContentHash|
                exists|m: Seq<char>| #[trigger]
                    reaches(cs, sha, m) && share_of(closures, facts, m).contains(h),
        )
    }
}

/// Whether a list is the closure of a commit, in rising order.
pub open spec fn lists_closure(
    cs: Seq<sequence::NodeView>,
    closures: Map<Seq<char>, Set<ContentHash>>,
    facts: Map<Seq<char>, ClosureFacts>,
    sha: Seq<char>,
    v: Seq<ContentHash>,
) -> bool {
    graph::hashes_rising(v) && v.to_set() == closure_of(cs, closures, facts, sha)
}

/// Where a member of a view comes from.
#[derive(Debug)]
pub struct MemberOrigin {
    pub hash: ContentHash,
    /// The Git commit that it was imported from.
    pub origin: Option<String>,
}

/// The pairs that a list of members stands for.
pub open spec fn origin_views(v: Seq<MemberOrigin>) -> Seq<(ContentHash, Option<Seq<char>>)> {
    v.map_values(|m: MemberOrigin| (m.hash, text::opt_text(m.origin)))
}

/// A change that a run introduced.
#[derive(Debug)]
pub struct Introduction {
    pub hash: ContentHash,
    pub view: String,
}

/// The ledger of an import run.
pub struct ClosureLedger {
    /// The change that each imported commit became.
    pub introduced: PathMap<Introduction>,
    /// Remembered closures, each in rising order.
    pub closures: PathMap<Vec<ContentHash>>,
    /// The members of the target view, once they are loaded.
    pub member_origins: Option<Vec<MemberOrigin>>,
}

/// A `ClosureLedger` as a value.
#[verifier::ext_equal]
pub struct LedgerView {
    pub introduced: Map<Seq<char>, (ContentHash, Seq<char>)>,
    pub closures: Map<Seq<char>, Set<ContentHash>>,
    pub members: Option<Seq<(ContentHash, Option<Seq<char>>)>>,
}

/// The remembered closures, as sets.
pub open spec fn closure_sets(m: Map<Seq<char>, Vec<ContentHash>>) -> Map<
    Seq<char>,
    Set<ContentHash>,
> {
    Map::new(|k: Seq<char>| m.contains_key(k), |k: Seq<char>| m[k]@.to_set())
}

/// The introduced changes, by view.
pub open spec fn introductions(m: Map<Seq<char>, Introduction>) -> Map<
    Seq<char>,
    (ContentHash, Seq<char>),
> {
    Map::new(|k: Seq<char>| m.contains_key(k), |k: Seq<char>| (m[k].hash, m[k].view@))
}

impl View for ClosureLedger {
    type V = LedgerView;

    open spec fn view(&self) -> LedgerView {
        LedgerView {
            introduced: introductions(self.introduced@),
            closures: closure_sets(self.closures@),
            members: match self.member_origins {
                Some(v) => Some(origin_views(v@)),
                None => None,
            },
        }
    }
}

/// The remembered closures after the closure of `sha` was asked for: those
/// of all its ancestors are remembered too.
pub open spec fn remembered(
    cs: Seq<sequence::NodeView>,
    closures: Map<Seq<char>, Set<ContentHash>>,
    facts: Map<Seq<char>, ClosureFacts>,
    sha: Seq<char>,
) -> Map<Seq<char>, Set<ContentHash>> {
    Map::new(
        |m: Seq<char>| closures.contains_key(m) || reaches(cs, sha, m),
        |m: Seq<char>| closure_of(cs, closures, facts, m),
    )
}

/// The members that an import must not see, in their order: they stem from
/// a commit outside the ancestry and are no part of the closure.
pub open spec fn excluded_members(
    members: Seq<(ContentHash, Option<Seq<char>>)>,
    ancestry: Seq<Seq<char>>,
    closure: Set<ContentHash>,
) -> Seq<ContentHash>
    decreases members.len(),
{
    if members.len() == 0 {
        seq![]
    } else {
        let head = excluded_members(members.drop_last(), ancestry, closure);
        let m = members.last();
        match m.1 {
            Some(origin) => if !closure.contains(m.0) && !ancestry.contains(origin) {
                head.push(m.0)
            } else {
                head
            },
            None => head,
        }
    }
}

/// No change of its own closure is ever hidden from a commit.
pub proof fn exclusions_spare_the_closure(
    members: Seq<(ContentHash, Option<Seq<char>>)>,
    ancestry: Seq<Seq<char>>,
    closure: Set<ContentHash>,
    h: ContentHash,
)
    requires
        closure.contains(h),
    ensures
        !excluded_members(members, ancestry, closure).contains(h),
    decreases members.len(),
{
    if members.len() > 0 {
        exclusions_spare_the_closure(members.drop_last(), ancestry, closure, h);
        let head = excluded_members(members.drop_last(), ancestry, closure);
        let all = excluded_members(members, ancestry, closure);
        if all.contains(h) {
            let k: int = choose|k: int| 0 <= k < all.len() && all[k] == h;
            if k < head.len() {
                assert(head[k] == h);
            }
        }
    }
}

/// A member without a Git origin is never hidden, unless the same change is
/// also a member with one.
pub proof fn native_members_stay_visible(
    members: Seq<(ContentHash, Option<Seq<char>>)>,
    ancestry: Seq<Seq<char>>,
    closure: Set<ContentHash>,
    h: ContentHash,
)
    requires
        forall|i: int| 0 <= i < members.len() && (#[trigger] members[i]).0 == h ==> members[i].1 is None,
    ensures
        !excluded_members(members, ancestry, closure).contains(h),
    decreases members.len(),
{
    if members.len() > 0 {
        let rest = members.drop_last();
        assert forall|i: int| 0 <= i < rest.len() && (#[trigger] rest[i]).0 == h implies rest[i].1 is None by {
            assert(rest[i] == members[i]);
        }
        native_members_stay_visible(rest, ancestry, closure, h);
        let head = excluded_members(rest, ancestry, closure);
        let all = excluded_members(members, ancestry, closure);
        assert(members[members.len() - 1].0 == h ==> members[members.len() - 1].1 is None);
        if all.contains(h) {
            let k: int = choose|k: int| 0 <= k < all.len() && all[k] == h;
            if k < head.len() {
                assert(head[k] == h);
            }
        }
    }
}

fn holds_hash(v: &Vec<ContentHash>, h: ContentHash) -> (r: bool)
    ensures
        r == v@.to_set().contains(h),
{
    let mut i: usize = 0;
    while i < v.len()
        invariant
            i <= v@.len(),
            forall|k: int| 0 <= k < i ==> #[trigger] v@[k] != h,
        decreases v@.len() - i,
    {
        if v[i] == h {
            assert(v@.contains(v@[i as int]));
            return true;
        }
        i += 1;
    }
    false
}

/// Insert all hashes of a list into a rising one.
fn insert_hashes(v: &mut Vec<ContentHash>, more: &Vec<ContentHash>)
    requires
        graph::hashes_rising(old(v)@),
    ensures
        graph::hashes_rising(final(v)@),
        final(v)@.to_set() == old(v)@.to_set().union(more@.to_set()),
{
    let ghost start = v@.to_set();
    let mut i: usize = 0;
    assert(v@.to_set() =~= start.union(more@.take(0).to_set()));
    while i < more.len()
        invariant
            i <= more@.len(),
            graph::hashes_rising(v@),
            v@.to_set() == start.union(more@.take(i as int).to_set()),
        decreases more@.len() - i,
    {
        let ghost head = more@.take(i as int);
        insert_hash(v, more[i]);
        assert(more@.take(i as int + 1) =~= head.push(more@[i as int]));
        assert(head.push(more@[i as int]).to_set() =~= head.to_set().insert(more@[i as int])) by {
            crate::line_index::lemma_push_to_set(head, more@[i as int]);
        }
        assert(v@.to_set() =~= start.union(more@.take(i as int + 1).to_set()));
        i += 1;
    }
    assert(more@.take(more@.len() as int) =~= more@);
}

fn add_own_share(v: &mut Vec<ContentHash>, f: &ClosureFacts)
    requires
        graph::hashes_rising(old(v)@),
    ensures
        graph::hashes_rising(final(v)@),
        final(v)@.to_set() == old(v)@.to_set().union(own_share(*f)),
{
    let ghost start = v@.to_set();
    match &f.persisted {
        Some(p) => {
            insert_hashes(v, p);
        },
        None => {
            if f.checked.is_some() {
                insert_hashes(v, &f.dependencies);
            }
        },
    }
    if let Some(h) = f.checked {
        insert_hash(v, h);
    }
    assert(v@.to_set() =~= start.union(own_share(*f)));
}

/// A copy of a list of hashes.
pub(crate) fn clone_hashes(v: &Vec<ContentHash>) -> (r: Vec<ContentHash>)
    ensures
        r@ == v@,
{
    let mut out: Vec<ContentHash> = Vec::new();
    let mut i: usize = 0;
    while i < v.len()
        invariant
            i <= v@.len(),
            out@ == v@.take(i as int),
        decreases v@.len() - i,
    {
        out.push(v[i]);
        assert(out@ =~= v@.take(i as int + 1));
        i += 1;
    }
    assert(v@.take(v@.len() as int) =~= v@);
    out
}

impl ClosureLedger {
    /// No commit is recorded twice, and closures are in rising order.
    pub open spec fn wf(&self) -> bool {
        &&& self.introduced.wf()
        &&& self.closures.wf()
        &&& forall|k: Seq<char>|
            #![trigger self.closures@[k]]
            self.closures@.contains_key(k) ==> graph::hashes_rising(self.closures@[k]@)
    }

    /// The empty ledger.
    pub fn new() -> (r: ClosureLedger)
        ensures
            r.wf(),
            r@ == (LedgerView {
                introduced: Map::empty(),
                closures: Map::empty(),
                members: None,
            }),
    {
        let r = ClosureLedger {
            introduced: PathMap::new(),
            closures: PathMap::new(),
            member_origins: None,
        };
        assert(r@.introduced =~= Map::empty());
        assert(r@.closures =~= Map::empty());
        r
    }

    /// What all commits of an ancestry bring together.
    fn union_of_shares(
        &self,
        facts: &PathMap<ClosureFacts>,
        ancestry: &Vec<String>,
        Ghost(cs): Ghost<Seq<sequence::NodeView>>,
        Ghost(sha): Ghost<Seq<char>>,
    ) -> (r: Vec<ContentHash>)
        requires
            self.wf(),
            facts.wf(),
            !self@.closures.contains_key(sha),
            forall|o: Seq<char>|
                #![trigger text::texts(ancestry@).contains(o)]
                text::texts(ancestry@).contains(o) <==> reaches(cs, sha, o),
        ensures
            graph::hashes_rising(r@),
            r@.to_set() == closure_of(cs, self@.closures, facts@, sha),
    {
        let ghost av = text::texts(ancestry@);
        let ghost cl = self@.closures;
        let mut out: Vec<ContentHash> = Vec::new();
        let mut i: usize = 0;
        while i < ancestry.len()
            invariant
                i <= ancestry@.len(),
                self.wf(),
                facts.wf(),
                av == text::texts(ancestry@),
                cl == self@.closures,
                graph::hashes_rising(out@),
                forall|h: ContentHash|
                    #![trigger out@.to_set().contains(h)]
                    out@.to_set().contains(h) <==> exists|k: int|
                        0 <= k < i && share_of(cl, facts@, #[trigger] av[k]).contains(h),
            decreases ancestry@.len() - i,
        {
            let ghost before = out@.to_set();
            let ghost m = ancestry@[i as int]@;
            assert(av[i as int] == m);
            match self.closures.get(&ancestry[i]) {
                Some(known) => {
                    assert(cl[m] == known@.to_set());
                    insert_hashes(&mut out, known);
                },
                None => {
                    match facts.get(&ancestry[i]) {
                        Some(f) => {
                            add_own_share(&mut out, f);
                        },
                        None => {},
                    }
                },
            }
            assert(out@.to_set() =~= before.union(share_of(cl, facts@, m)));
            assert forall|h: ContentHash|
                #![trigger out@.to_set().contains(h)]
                out@.to_set().contains(h) <==> exists|k: int|
                    0 <= k < i + 1 && share_of(cl, facts@, #[trigger] av[k]).contains(h) by {
                assert(before.contains(h) <==> exists|k: int|
                    0 <= k < i && share_of(cl, facts@, #[trigger] av[k]).contains(h));
                if before.contains(h) {
                    let k: int = choose|k: int|
                        0 <= k < i && share_of(cl, facts@, #[trigger] av[k]).contains(h);
                    assert(share_of(cl, facts@, av[k]).contains(h));
                }
                if share_of(cl, facts@, m).contains(h) {
                    assert(share_of(cl, facts@, av[i as int]).contains(h));
                }
                if exists|k: int|
                    0 <= k < i + 1 && share_of(cl, facts@, #[trigger] av[k]).contains(h) {
                    let k: int = choose|k: int|
                        0 <= k < i + 1 && share_of(cl, facts@, #[trigger] av[k]).contains(h);
                    if k == i {
                        assert(share_of(cl, facts@, m).contains(h));
                    }
                }
            }
            i += 1;
        }
        assert(out@.to_set() =~= closure_of(cs, cl, facts@, sha)) by {
            assert forall|h: ContentHash| out@.to_set().contains(h) == closure_of(
                cs,
                cl,
                facts@,
                sha,
            ).contains(h) by {
                if out@.to_set().contains(h) {
                    let k: int = choose|k: int|
                        0 <= k < i && share_of(cl, facts@, #[trigger] av[k]).contains(h);
                    assert(av.contains(av[k]));
                    assert(reaches(cs, sha, av[k]) && share_of(cl, facts@, av[k]).contains(h));
                }
                if closure_of(cs, cl, facts@, sha).contains(h) {
                    let m = choose|m: Seq<char>| #[trigger]
                        reaches(cs, sha, m) && share_of(cl, facts@, m).contains(h);
                    assert(av.contains(m));
                    let k: int = choose|k: int| 0 <= k < av.len() && av[k] == m;
                    assert(share_of(cl, facts@, av[k]).contains(h));
                }
            }
        }
        out
    }

    /// The members that an import of a commit must not see. A commit without
    /// a Git parent sees everything.
    pub fn exclusions_for(
        &self,
        members: &Vec<MemberOrigin>,
        ancestry: &Vec<String>,
        closure: &Vec<ContentHash>,
        has_git_parent: bool,
    ) -> (r: Vec<ContentHash>)
        ensures
            r@ == if has_git_parent {
                excluded_members(
                    origin_views(members@),
                    text::texts(ancestry@),
                    closure@.to_set(),
                )
            } else {
                seq![]
            },
    {
        let mut out: Vec<ContentHash> = Vec::new();
        if !has_git_parent {
            return out;
        }
        let ghost mv = origin_views(members@);
        let ghost av = text::texts(ancestry@);
        let ghost cl = closure@.to_set();
        let mut i: usize = 0;
        assert(mv.take(0) =~= Seq::<(ContentHash, Option<Seq<char>>)>::empty());
        while i < members.len()
            invariant
                i <= members@.len(),
                mv == origin_views(members@),
                av == text::texts(ancestry@),
                cl == closure@.to_set(),
                out@ == excluded_members(mv.take(i as int), av, cl),
            decreases members@.len() - i,
        {
            assert(mv.take(i as int + 1).drop_last() =~= mv.take(i as int));
            let m: &MemberOrigin = &members[i];
            assert(mv.take(i as int + 1).last() == (m.hash, text::opt_text(m.origin)));
            if let Some(origin) = &m.origin {
                if !holds_hash(closure, m.hash) && !contains_text(ancestry, origin) {
                    out.push(m.hash);
                }
            }
            i += 1;
        }
        assert(mv.take(members@.len() as int) =~= mv);
        out
    }

    /// Record that importing `sha` introduced `hash` into `view`.
    pub fn record_introduced(&mut self, sha: &str, hash: ContentHash, view: &str)
        requires
            old(self).wf(),
        ensures
            final(self).wf(),
            final(self)@ == (LedgerView {
                introduced: old(self)@.introduced.insert(sha@, (hash, view@)),
                closures: old(self)@.closures.insert(
                    sha@,
                    (if old(self)@.closures.contains_key(sha@) {
                        old(self)@.closures[sha@]
                    } else {
                        Set::empty()
                    }).insert(hash),
                ),
                members: match old(self)@.members {
                    Some(ms) => Some(ms.push((hash, Some(text::lowered(sha@))))),
                    None => None,
                },
            }),
    {
        let ghost before = self@;
        let i = Introduction { hash, view: view.to_owned() };
        self.introduced.insert(sha.to_owned(), i);
        assert(self@.introduced =~= before.introduced.insert(sha@, (hash, view@)));
        let mut closure: Vec<ContentHash> = match self.closures.get(sha) {
            Some(known) => {
                assert(before.closures[sha@] == known@.to_set());
                clone_hashes(known)
            },
            None => Vec::new(),
        };
        let ghost cv = closure@.to_set();
        assert(cv =~= if before.closures.contains_key(sha@) {
            before.closures[sha@]
        } else {
            Set::empty()
        });
        insert_hash(&mut closure, hash);
        let ghost ov = self.closures@;
        self.closures.insert(sha.to_owned(), closure);
        assert(self@.closures =~= before.closures.insert(sha@, cv.insert(hash)));
        assert forall|k: Seq<char>|
            #![trigger self.closures@[k]]
            self.closures@.contains_key(k) implies graph::hashes_rising(self.closures@[k]@) by {
            if k != sha@ {
                assert(ov.contains_key(k) && self.closures@[k] == ov[k]);
            }
        }
        match self.member_origins.take() {
            Some(ms) => {
                let mut ms = ms;
                let ghost mv = origin_views(ms@);
                let m = MemberOrigin { hash, origin: Some(to_lower(sha)) };
                let ghost ev = (m.hash, text::opt_text(m.origin));
                ms.push(m);
                assert(origin_views(ms@) =~= mv.push(ev));
                self.member_origins = Some(ms);
            },
            None => {},
        }
    }

    /// Keep the members of the target view, loaded once per run.
    pub fn keep_members(&mut self, members: Vec<MemberOrigin>)
        requires
            old(self).wf(),
        ensures
            final(self).wf(),
            final(self)@ == (LedgerView {
                members: Some(origin_views(members@)),
                ..old(self)@
            }),
    {
        self.member_origins = Some(members);
    }

    /// The closure of one commit of an ancestry that is not remembered.
    fn fresh_closure(
        &self,
        commits: &Vec<CommitNode>,
        facts: &PathMap<ClosureFacts>,
        here: &String,
        Ghost(sha): Ghost<Seq<char>>,
    ) -> (r: Vec<ContentHash>)
        requires
            self.wf(),
            facts.wf(),
            sequence::distinct_commits(sequence::node_views(commits@)),
            !self@.closures.contains_key(here@),
            reaches(sequence::node_views(commits@), sha, here@),
            forall|o: Seq<char>|
                #![trigger reaches(sequence::node_views(commits@), sha, o)]
                reaches(sequence::node_views(commits@), sha, o) ==> sequence::collected(
                    sequence::node_views(commits@),
                    o,
                ),
        ensures
            lists_closure(
                sequence::node_views(commits@),
                self@.closures,
                facts@,
                here@,
                r@,
            ),
    {
        let ghost cs = sequence::node_views(commits@);
        match ancestry_of(commits, here) {
            Ok(own) => self.union_of_shares(facts, &own, Ghost(cs), Ghost(here@)),
            Err(missing) => {
                proof {
                    lemma_reaches_on(cs, sha, here@, missing@);
                    assert(false);
                }
                Vec::new()
            },
        }
    }

    /// The closures of all commits of an ancestry that are not remembered.
    fn fresh_closures(
        &self,
        commits: &Vec<CommitNode>,
        facts: &PathMap<ClosureFacts>,
        ancestry: &Vec<String>,
        Ghost(sha): Ghost<Seq<char>>,
    ) -> (r: PathMap<Vec<ContentHash>>)
        requires
            self.wf(),
            facts.wf(),
            sequence::distinct_commits(sequence::node_views(commits@)),
            forall|o: Seq<char>|
                #![trigger text::texts(ancestry@).contains(o)]
                text::texts(ancestry@).contains(o) <==> reaches(
                    sequence::node_views(commits@),
                    sha,
                    o,
                ),
            forall|o: Seq<char>|
                #![trigger reaches(sequence::node_views(commits@), sha, o)]
                reaches(sequence::node_views(commits@), sha, o) ==> sequence::collected(
                    sequence::node_views(commits@),
                    o,
                ),
        ensures
            r.wf(),
            forall|k: int|
                0 <= k < ancestry@.len() ==> r@.contains_key(#[trigger] ancestry@[k]@)
                    == !self@.closures.contains_key(ancestry@[k]@),
            forall|m: Seq<char>|
                #![trigger r@[m]]
                r@.contains_key(m) ==> lists_closure(
                    sequence::node_views(commits@),
                    self@.closures,
                    facts@,
                    m,
                    r@[m]@,
                ),
    {
        let ghost cs = sequence::node_views(commits@);
        let ghost cl = self@.closures;
        let ghost av = text::texts(ancestry@);
        let mut fresh: PathMap<Vec<ContentHash>> = PathMap::new();
        let mut i: usize = 0;
        while i < ancestry.len()
            invariant
                i <= ancestry@.len(),
                self.wf(),
                facts.wf(),
                fresh.wf(),
                cs == sequence::node_views(commits@),
                cl == self@.closures,
                av == text::texts(ancestry@),
                sequence::distinct_commits(cs),
                forall|o: Seq<char>|
                    #![trigger av.contains(o)]
                    av.contains(o) <==> reaches(cs, sha, o),
                forall|o: Seq<char>|
                    #![trigger reaches(cs, sha, o)]
                    reaches(cs, sha, o) ==> sequence::collected(cs, o),
                forall|k: int|
                    0 <= k < i ==> fresh@.contains_key(#[trigger] ancestry@[k]@)
                        == !cl.contains_key(ancestry@[k]@),
                forall|m: Seq<char>|
                    #![trigger fresh@.contains_key(m)]
                    fresh@.contains_key(m) ==> !cl.contains_key(m) && lists_closure(
                        cs,
                        cl,
                        facts@,
                        m,
                        fresh@[m]@,
                    ),
            decreases ancestry@.len() - i,
        {
            let ghost here = ancestry@[i as int]@;
            let ghost before = fresh@;
            assert(av[i as int] == here);
            assert(av.contains(here));
            assert(reaches(cs, sha, here));
            if !self.closures.contains_key(&ancestry[i]) {
                let v = self.fresh_closure(commits, facts, &ancestry[i], Ghost(sha));
                let ghost vv = v;
                fresh.insert(ancestry[i].clone(), v);
                assert(fresh@ == before.insert(here, vv));
            } else {
                assert(fresh@ == before);
            }
            assert forall|m: Seq<char>|
                #![trigger fresh@.contains_key(m)]
                fresh@.contains_key(m) implies !cl.contains_key(m) && lists_closure(
                cs,
                cl,
                facts@,
                m,
                fresh@[m]@,
            ) by {
                if m != here || cl.contains_key(here) {
                    assert(before.contains_key(m) && fresh@[m] == before[m]);
                }
            }
            assert(cl.contains_key(here) ==> !fresh@.contains_key(here)) by {
                if fresh@.contains_key(here) {
                    let v = fresh@[here];
                }
            }
            assert forall|k: int| 0 <= k < i + 1 implies fresh@.contains_key(
                #[trigger] ancestry@[k]@,
            ) == !cl.contains_key(ancestry@[k]@) by {
                if k < i {
                    assert(before.contains_key(ancestry@[k]@) == !cl.contains_key(
                        ancestry@[k]@,
                    ));
                }
            }
            i += 1;
        }
        fresh
    }

    /// The interpreted closure of a commit: every change that it or an
    /// ancestor brings, in rising order. `Err` with a commit of its ancestry
    /// that is not recorded, if there is one.
    pub fn interpreted_closure(
        &mut self,
        commits: &Vec<CommitNode>,
        facts: &PathMap<ClosureFacts>,
        sha: &str,
    ) -> (r: Result<Vec<ContentHash>, String>)
        requires
            old(self).wf(),
            facts.wf(),
            sequence::distinct_commits(sequence::node_views(commits@)),
        ensures
            final(self).wf(),
            ({
                let cs = sequence::node_views(commits@);
                let cl = old(self)@.closures;
                match r {
                    Ok(v) => graph::hashes_rising(v@) && v@.to_set() == closure_of(
                        cs,
                        cl,
                        facts@,
                        sha@,
                    ) && final(self)@ == (LedgerView {
                        closures: if cl.contains_key(sha@) {
                            cl
                        } else {
                            remembered(cs, cl, facts@, sha@)
                        },
                        ..old(self)@
                    }) && (!cl.contains_key(sha@) ==> forall|o: Seq<char>|
                        #![trigger reaches(cs, sha@, o)]
                        reaches(cs, sha@, o) ==> sequence::collected(cs, o)),
                    Err(missing) => !cl.contains_key(sha@) && reaches(cs, sha@, missing@)
                        && !sequence::collected(cs, missing@) && final(self)@ == old(self)@,
                }
            }),
    {
        let ghost cs = sequence::node_views(commits@);
        let ghost before = self@;
        let ghost cl = self@.closures;
        if let Some(known) = self.closures.get(sha) {
            assert(cl[sha@] == known@.to_set());
            return Ok(clone_hashes(known));
        }
        let ancestry = match ancestry_of(commits, sha) {
            Ok(a) => a,
            Err(missing) => {
                return Err(missing);
            },
        };
        let ghost av = text::texts(ancestry@);
        let fresh = self.fresh_closures(commits, facts, &ancestry, Ghost(sha@));
        let mut i: usize = 0;
        let ghost start = self.closures@;
        assert(self@.closures =~= cl);
        while i < ancestry.len()
            invariant
                i <= ancestry@.len(),
                self.wf(),
                fresh.wf(),
                av == text::texts(ancestry@),
                self@.introduced == before.introduced,
                self@.members == before.members,
                cl == closure_sets(start),
                forall|k: int|
                    0 <= k < ancestry@.len() ==> fresh@.contains_key(#[trigger] ancestry@[k]@)
                        == !cl.contains_key(ancestry@[k]@),
                forall|m: Seq<char>|
                    #![trigger fresh@[m]]
                    fresh@.contains_key(m) ==> lists_closure(cs, cl, facts@, m, fresh@[m]@),
                forall|m: Seq<char>|
                    #![trigger self@.closures.contains_key(m)]
                    self@.closures.contains_key(m) <==> cl.contains_key(m) || av.take(
                        i as int,
                    ).contains(m),
                forall|m: Seq<char>|
                    #![trigger self@.closures[m]]
                    self@.closures.contains_key(m) ==> self@.closures[m] == closure_of(
                        cs,
                        cl,
                        facts@,
                        m,
                    ),
            decreases ancestry@.len() - i,
        {
            let ghost here = ancestry@[i as int]@;
            let ghost prev = self@.closures;
            let ghost raw = self.closures@;
            assert(av[i as int] == here);
            assert(av.take(i as int + 1) =~= av.take(i as int).push(here));
            if let Some(v) = fresh.get(&ancestry[i]) {
                let copy = clone_hashes(v);
                let ghost set = copy@.to_set();
                self.closures.insert(ancestry[i].clone(), copy);
                assert(self@.closures =~= prev.insert(here, set));
                assert forall|k: Seq<char>|
                    #![trigger self.closures@[k]]
                    self.closures@.contains_key(k) implies graph::hashes_rising(
                    self.closures@[k]@,
                ) by {
                    if k != here {
                        assert(raw.contains_key(k) && self.closures@[k] == raw[k]);
                    }
                }
                assert forall|m: Seq<char>|
                    #![trigger self@.closures[m]]
                    self@.closures.contains_key(m) implies self@.closures[m] == closure_of(
                    cs,
                    cl,
                    facts@,
                    m,
                ) by {
                    if m != here {
                        assert(prev.contains_key(m) && self@.closures[m] == prev[m]);
                    }
                }
            } else {
                assert(cl.contains_key(ancestry@[i as int]@));
            }
            assert forall|m: Seq<char>|
                #![trigger self@.closures.contains_key(m)]
                self@.closures.contains_key(m) <==> cl.contains_key(m) || av.take(
                    i as int + 1,
                ).contains(m) by {
                lemma_push_contains(av.take(i as int), here, m);
                assert(prev.contains_key(m) <==> cl.contains_key(m) || av.take(
                    i as int,
                ).contains(m));
            }
            i += 1;
        }
        assert(av.take(ancestry@.len() as int) =~= av);
        assert(self@.closures =~= remembered(cs, cl, facts@, sha@)) by {
            assert forall|m: Seq<char>| self@.closures.contains_key(m) == remembered(
                cs,
                cl,
                facts@,
                sha@,
            ).contains_key(m) by {
                assert(av.contains(m) <==> reaches(cs, sha@, m));
            }
        }
        proof {
            lemma_reaches_self(cs, sha@);
            assert(av.contains(sha@));
            assert(self@.closures.contains_key(sha@));
            let v = self@.closures[sha@];
        }
        match self.closures.get(sha) {
            Some(v) => {
                assert(self@.closures[sha@] == v@.to_set());
                Ok(clone_hashes(v))
            },
            None => Ok(Vec::new()),
        }
    }
}

proof fn lemma_reaches_on(
    cs: Seq<sequence::NodeView>,
    a: Seq<char>,
    b: Seq<char>,
    c: Seq<char>,
)
    requires
        reaches(cs, a, b),
        reaches(cs, b, c),
    ensures
        reaches(cs, a, c),
{
    let p = choose|path: Seq<Seq<char>>| #[trigger]
        is_path(cs, path) && path[0] == a && path.last() == b;
    let q = choose|path: Seq<Seq<char>>| #[trigger]
        is_path(cs, path) && path[0] == b && path.last() == c;
    let whole = p + q.drop_first();
    assert forall|x: int, y: int| 0 <= x && y == x + 1 && y < whole.len() implies names_parent(
        cs,
        #[trigger] whole[x],
        #[trigger] whole[y],
    ) by {
        if y < p.len() {
            assert(names_parent(cs, p[x], p[y]));
        } else {
            let u = x - p.len() + 1;
            let v = u + 1;
            assert(whole[y] == q[v]);
            assert(whole[x] == q[u]) by {
                if u == 0 {
                    assert(whole[x] == p.last());
                }
            }
            assert(names_parent(cs, q[u], q[v]));
        }
    }
    assert(is_path(cs, whole));
    assert(whole[0] == a);
    assert(whole.last() == c) by {
        if q.len() == 1 {
            assert(q.last() == q[0]);
            assert(whole =~= p);
        }
    }
}

/// A closure holds that of every ancestor: what an ancestor brings, its
/// descendants bring too, as long as neither closure is remembered.
pub proof fn closures_grow_with_history(
    cs: Seq<sequence::NodeView>,
    closures: Map<Seq<char>, Set<ContentHash>>,
    facts: Map<Seq<char>, ClosureFacts>,
    descendant: Seq<char>,
    ancestor: Seq<char>,
)
    requires
        reaches(cs, descendant, ancestor),
        !closures.contains_key(descendant),
        !closures.contains_key(ancestor),
    ensures
        closure_of(cs, closures, facts, ancestor).subset_of(
            closure_of(cs, closures, facts, descendant),
        ),
{
    let big = closure_of(cs, closures, facts, descendant);
    assert forall|h: ContentHash| closure_of(cs, closures, facts, ancestor).contains(
        h,
    ) implies big.contains(h) by {
        let m = choose|m: Seq<char>| #[trigger]
            reaches(cs, ancestor, m) && share_of(closures, facts, m).contains(h);
        lemma_reaches_on(cs, descendant, ancestor, m);
    }
}

/// Exactly the foreign members are hidden: a change is excluded where, and
/// only where, it stems from a commit outside the ancestry and is no part of
/// the closure.
pub proof fn exactly_foreign_members_are_excluded(
    members: Seq<(ContentHash, Option<Seq<char>>)>,
    ancestry: Seq<Seq<char>>,
    closure: Set<ContentHash>,
    h: ContentHash,
)
    ensures
        excluded_members(members, ancestry, closure).contains(h) <==> exists|i: int|
            0 <= i < members.len() && (#[trigger] members[i]).0 == h && members[i].1 is Some
                && !ancestry.contains(members[i].1->0) && !closure.contains(h),
    decreases members.len(),
{
    let all = excluded_members(members, ancestry, closure);
    if members.len() == 0 {
        assert(all.len() == 0);
    } else {
        let rest = members.drop_last();
        let head = excluded_members(rest, ancestry, closure);
        let m = members.last();
        exactly_foreign_members_are_excluded(rest, ancestry, closure, h);
        if all.contains(h) {
            let j = choose|j: int| 0 <= j < all.len() && all[j] == h;
            if j < head.len() {
                assert(head[j] == h);
                assert(head.contains(h));
                let i = choose|i: int|
                    0 <= i < rest.len() && (#[trigger] rest[i]).0 == h && rest[i].1 is Some
                        && !ancestry.contains(rest[i].1->0) && !closure.contains(h);
                assert(members[i] == rest[i]);
            } else {
                assert(members[members.len() - 1].0 == h);
            }
        }
        if exists|i: int|
            0 <= i < members.len() && (#[trigger] members[i]).0 == h && members[i].1 is Some
                && !ancestry.contains(members[i].1->0) && !closure.contains(h) {
            let i = choose|i: int|
                0 <= i < members.len() && (#[trigger] members[i]).0 == h && members[i].1 is Some
                    && !ancestry.contains(members[i].1->0) && !closure.contains(h);
            if i < rest.len() {
                assert(rest[i] == members[i]);
                let j = choose|j: int| 0 <= j < head.len() && head[j] == h;
                assert(all[j] == h);
            } else {
                assert(all[head.len() as int] == h);
            }
        }
    }
}

} // verus!
