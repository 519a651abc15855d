//! How a merge commit is turned into a resolution: the closures of its
//! parents united, and each path led from the union to the merge's tree.
use crate::commit;
use crate::commit::{ParsedCommit, ParsedFile};
use crate::error::{git_error, internal_error, CliError};
use crate::graph;
use crate::graph::{insert_hash, ContentHash};
use crate::line_units::{clone_bytes, same_bytes};
use crate::oid;
use crate::oid::{git_algorithm_for_sha, git_object_id_for_sha, GitObjectId};
use crate::push::GitHashAlgorithm;
use crate::synthesis;
use crate::synthesis::read_parents;
use crate::text;
use crate::text::same_text;
use vstd::prelude::*;

verus! {

/// What is known of a parent of a merge.
#[derive(Debug)]
pub struct ParentClosure {
    /// The parent's id.
    pub sha: String,
    /// The change that the parent was imported as, if it was.
    pub change: Option<ContentHash>,
    /// The changes of the parent's interpreted closure.
    pub closure: Vec<ContentHash>,
}

/// The ids of parents.
pub open spec fn parent_shas(ps: Seq<ParentClosure>) -> Seq<Seq<char>> {
    ps.map_values(|p: ParentClosure| p.sha@)
}

/// Tell whether the parents are those with these ids, in order.
pub fn are_parents(ps: &Vec<ParentClosure>, ids: &Vec<String>) -> (r: bool)
    ensures
        r == (parent_shas(ps@) == text::texts(ids@)),
{
    let ghost seen = parent_shas(ps@);
    let ghost want = text::texts(ids@);
    assert(seen.len() == ps@.len() && want.len() == ids@.len());
    if ps.len() != ids.len() {
        return false;
    }
    let mut i: usize = 0;
    while i < ps.len()
        invariant
            i <= ps@.len() == ids@.len(),
            seen == parent_shas(ps@),
            want == text::texts(ids@),
            forall|k: int| 0 <= k < i ==> #[trigger] seen[k] == want[k],
        decreases ps@.len() - i,
    {
        assert(seen[i as int] == ps@[i as int].sha@);
        assert(want[i as int] == ids@[i as int]@);
        if !same_text(&ps[i].sha, &ids[i]) {
            return false;
        }
        i += 1;
    }
    assert(seen =~= want);
    true
}

/// Why a merge with an unknown parent is refused.
pub open spec fn missing_parent_text(sha: Seq<char>, parent: Seq<char>) -> Seq<char> {
    "merge "@ + sha + " parent "@ + parent
        + " has no locally verified imported change; every parent closure must be imported before the resolution"@
}

/// Why a merge without any known ancestor is refused.
pub open spec fn no_closure_text(sha: Seq<char>) -> Seq<char> {
    "merge "@ + sha
        + " parent closures cannot be reconstructed locally; refusing to invent a partial union state"@
}

/// The first of the parents, from `from` on, that was not imported.
pub open spec fn first_missing(ps: Seq<ParentClosure>, from: int) -> Option<Seq<char>>
    decreases ps.len() - from,
{
    if from < 0 || from >= ps.len() {
        None
    } else if ps[from].change is None {
        Some(ps[from].sha@)
    } else {
        first_missing(ps, from + 1)
    }
}

/// The changes of the first `n` parents' closures.
pub open spec fn united(ps: Seq<ParentClosure>, n: int) -> Set<ContentHash>
    decreases n,
{
    if n <= 0 {
        Set::empty()
    } else {
        united(ps, n - 1).union(ps[n - 1].closure@.to_set())
    }
}

/// The union of the closures of a merge's parents, or why there is none.
pub open spec fn merge_union(ps: Seq<ParentClosure>, sha: Seq<char>) -> Result<
    Set<ContentHash>,
    Seq<char>,
> {
    match first_missing(ps, 0) {
        Some(parent) => Err(missing_parent_text(sha, parent)),
        None => if united(ps, ps.len() as int) =~= Set::empty() {
            Err(no_closure_text(sha))
        } else {
            Ok(united(ps, ps.len() as int))
        },
    }
}

fn unite(out: &mut Vec<ContentHash>, closure: &Vec<ContentHash>)
    requires
        graph::hashes_rising(old(out)@),
    ensures
        graph::hashes_rising(final(out)@),
        final(out)@.to_set() == old(out)@.to_set().union(closure@.to_set()),
{
    let ghost base = out@.to_set();
    let mut i: usize = 0;
    assert(base.union(closure@.take(0).to_set()) =~= base);
    while i < closure.len()
        invariant
            i <= closure@.len(),
            graph::hashes_rising(out@),
            out@.to_set() == base.union(closure@.take(i as int).to_set()),
        decreases closure@.len() - i,
    {
        insert_hash(out, closure[i]);
        proof {
            let a = closure@.take(i as int);
            let b = closure@.take(i as int + 1);
            assert(b =~= a.push(closure@[i as int]));
            crate::line_index::lemma_push_to_set(a, closure@[i as int]);
            assert(out@.to_set() =~= base.union(b.to_set()));
        }
        i += 1;
    }
    assert(closure@.take(i as int) =~= closure@);
}

/// Unite the closures of a merge's parents, in rising order. It fails where
/// a parent was not imported, and where nothing is known of any ancestor.
pub fn merge_parent_closure(sha: &str, parents: &Vec<ParentClosure>) -> (r: Result<
    Vec<ContentHash>,
    CliError,
>)
    ensures
        match merge_union(parents@, sha@) {
            Ok(s) => r matches Ok(v) && graph::hashes_rising(v@) && v@.to_set() == s,
            Err(m) => r matches Err(e) && e.is_git_error(m),
        },
{
    let mut out: Vec<ContentHash> = Vec::new();
    let mut i: usize = 0;
    assert(out@.to_set() =~= united(parents@, 0));
    while i < parents.len()
        invariant
            i <= parents@.len(),
            graph::hashes_rising(out@),
            out@.to_set() == united(parents@, i as int),
            first_missing(parents@, 0) == first_missing(parents@, i as int),
        decreases parents@.len() - i,
    {
        if parents[i].change.is_none() {
            let mut m: String = "merge ".to_owned();
            m.append(sha);
            m.append(" parent ");
            m.append(&parents[i].sha);
            m.append(
                " has no locally verified imported change; every parent closure must be imported before the resolution",
            );
            return Err(git_error(m));
        }
        unite(&mut out, &parents[i].closure);
        i += 1;
    }
    if out.len() == 0 {
        let mut m: String = "merge ".to_owned();
        m.append(sha);
        m.append(
            " parent closures cannot be reconstructed locally; refusing to invent a partial union state",
        );
        assert(out@.to_set() =~= Set::empty());
        return Err(git_error(m));
    }
    assert(out@.to_set().contains(out@[0]));
    assert(!(out@.to_set() =~= Set::<ContentHash>::empty()));
    Ok(out)
}

/// What leads a path from the union to the merge's tree.
#[derive(Debug)]
pub enum MergeStep {
    /// The union already holds the merge's content, or neither holds the
    /// path.
    Nothing,
    /// Replace the whole content.
    Resolve { content: Vec<u8> },
    /// Add the path.
    Add { content: Vec<u8> },
    /// Delete the path.
    Delete,
}

/// What leads a path from the union to the merge's tree.
pub enum MergeStepView {
    Nothing,
    Resolve(Seq<u8>),
    Add(Seq<u8>),
    Delete,
}

impl View for MergeStep {
    type V = MergeStepView;

    open spec fn view(&self) -> MergeStepView {
        match self {
            MergeStep::Nothing => MergeStepView::Nothing,
            MergeStep::Resolve { content } => MergeStepView::Resolve(content@),
            MergeStep::Add { content } => MergeStepView::Add(content@),
            MergeStep::Delete => MergeStepView::Delete,
        }
    }
}

/// What leads a path from what the union holds to what the merge holds.
pub open spec fn merge_step_of(merged: Option<Seq<u8>>, union: Option<Seq<u8>>) -> MergeStepView {
    match (merged, union) {
        (Some(m), Some(u)) => if m == u {
            MergeStepView::Nothing
        } else {
            MergeStepView::Resolve(m)
        },
        (Some(m), None) => MergeStepView::Add(m),
        (None, Some(_)) => MergeStepView::Delete,
        (None, None) => MergeStepView::Nothing,
    }
}

/// What a path holds after a step.
pub open spec fn after_step(s: MergeStepView, union: Option<Seq<u8>>) -> Option<Seq<u8>> {
    match s {
        MergeStepView::Nothing => union,
        MergeStepView::Resolve(c) => Some(c),
        MergeStepView::Add(c) => Some(c),
        MergeStepView::Delete => None,
    }
}

/// Whatever the union holds, the merge decides: after its step a path holds
/// what the merge's tree holds.
pub proof fn the_merge_tree_decides(merged: Option<Seq<u8>>, union: Option<Seq<u8>>)
    ensures
        after_step(merge_step_of(merged, union), union) == merged,
{
}

/// Decide what leads a file's path from the union to the merge's tree.
pub fn merge_step(file: &ParsedFile, union: &Option<Vec<u8>>) -> (r: MergeStep)
    ensures
        r@ == merge_step_of(file@.new_content, graph::opt_bytes(*union)),
{
    match &file.new_content {
        Some(c) => match union {
            Some(u) => if same_bytes(c, u) {
                MergeStep::Nothing
            } else {
                MergeStep::Resolve { content: clone_bytes(c) }
            },
            None => MergeStep::Add { content: clone_bytes(c) },
        },
        None => match union {
            Some(_) => MergeStep::Delete,
            None => MergeStep::Nothing,
        },
    }
}

/// The paths of the first `n` files that the merge adds to the union.
pub open spec fn added_by_merge(
    fs: Seq<commit::ParsedFileView>,
    unions: Seq<Option<Vec<u8>>>,
    n: int,
) -> Seq<Seq<char>>
    decreases n,
{
    if n <= 0 {
        seq![]
    } else if merge_step_of(fs[n - 1].new_content, graph::opt_bytes(unions[n - 1])) is Add {
        added_by_merge(fs, unions, n - 1).push(fs[n - 1].path)
    } else {
        added_by_merge(fs, unions, n - 1)
    }
}

/// The paths that a merge adds to the union.
pub fn merge_added_paths(files: &Vec<ParsedFile>, unions: &Vec<Option<Vec<u8>>>) -> (r: Vec<String>)
    requires
        files@.len() == unions@.len(),
    ensures
        text::texts(r@) == added_by_merge(
            commit::file_views(files@),
            unions@,
            files@.len() as int,
        ),
{
    let ghost fs = commit::file_views(files@);
    let mut out: Vec<String> = Vec::new();
    let mut i: usize = 0;
    assert(text::texts(out@) =~= added_by_merge(fs, unions@, 0));
    while i < files.len()
        invariant
            i <= files@.len(),
            files@.len() == unions@.len(),
            fs == commit::file_views(files@),
            text::texts(out@) == added_by_merge(fs, unions@, i as int),
        decreases files@.len() - i,
    {
        assert(fs[i as int] == files@[i as int]@);
        let ghost before = text::texts(out@);
        if files[i].new_content.is_some() && unions[i].is_none() {
            out.push(files[i].path.as_str().to_owned());
            assert(text::texts(out@) =~= before.push(fs[i as int].path));
        }
        i += 1;
    }
    out
}

/// The steps that can leave nothing recorded, as the errors tell of them.
#[derive(Clone, Copy, Debug, PartialEq, Eq, Structural)]
pub enum MergeRecord {
    Resolution,
    Addition,
    Deletion,
}

/// Why an empty record of a merge is refused.
pub open spec fn empty_merge_record_text(k: MergeRecord, path: Seq<char>) -> Seq<char> {
    match k {
        MergeRecord::Resolution => "cannot record merge resolution for '"@ + path
            + "': record is empty"@,
        MergeRecord::Addition => "cannot record merge addition '"@ + path + "': record is empty"@,
        MergeRecord::Deletion => "cannot import merge deletion '"@ + path
            + "': canonical FileDel is empty"@,
    }
}

/// Refuse an empty record of a merge.
pub fn require_merge_record(empty: bool, kind: MergeRecord, path: &str) -> (r: Result<(), CliError>)
    ensures
        empty ==> (r matches Err(e) && e.is_internal(empty_merge_record_text(kind, path@))),
        !empty ==> r is Ok,
{
    if !empty {
        return Ok(());
    }
    let (head, tail) = match kind {
        MergeRecord::Resolution => ("cannot record merge resolution for '", "': record is empty"),
        MergeRecord::Addition => ("cannot record merge addition '", "': record is empty"),
        MergeRecord::Deletion => (
            "cannot import merge deletion '",
            "': canonical FileDel is empty",
        ),
    };
    let mut m: String = head.to_owned();
    m.append(path);
    m.append(tail);
    Err(internal_error(m))
}

/// Why a deletion without a known file is refused.
pub open spec fn unbound_deletion_text(path: Seq<char>) -> Seq<char> {
    "cannot import merge deletion '"@ + path + "': no stable inode binding"@
}

/// Refuse the deletion of a path whose file is not known.
pub fn require_deletion_binding(known: bool, path: &str) -> (r: Result<(), CliError>)
    ensures
        known ==> r is Ok,
        !known ==> (r matches Err(e) && e.is_git_error(unbound_deletion_text(path@))),
{
    if known {
        return Ok(());
    }
    let mut m: String = "cannot import merge deletion '".to_owned();
    m.append(path);
    m.append("': no stable inode binding");
    Err(git_error(m))
}

/// The Git objects that a resolution comes from.
#[derive(Debug)]
pub struct GitResolutionOrigin {
    pub commit: GitObjectId,
    pub parents: Vec<GitObjectId>,
}

/// The ids by which a merge is told: its own and its parents'.
pub open spec fn resolution_ids(p: ParsedCommit) -> Seq<Seq<char>> {
    seq![p.git_sha@] + text::texts(p.parent_oids@)
}

/// The origin of a resolution. There is one whenever the ids of the merge
/// and of its parents are those of SHA-1 objects.
pub fn resolution_origin(parsed: &ParsedCommit) -> (r: Result<GitResolutionOrigin, CliError>)
    ensures
        r matches Ok(o) ==> o.commit@ == synthesis::named_object(parsed.git_sha@)
            && synthesis::id_views(o.parents@) == synthesis::named_objects(
            text::texts(parsed.parent_oids@),
        ),
        r is Ok <==> oid::sound_ids(parsed.git_sha@, resolution_ids(*parsed)),
        r matches Err(e) ==> oid::tells_unsound_ids(e, parsed.git_sha@, resolution_ids(*parsed)),
{
    proof {
        let head = seq![parsed.git_sha@];
        let tail = text::texts(parsed.parent_oids@);
        assert(resolution_ids(*parsed)[0] == parsed.git_sha@);
        oid::lemma_refused_behind(GitHashAlgorithm::Sha1, head, tail, 0);
        oid::lemma_refused_behind(GitHashAlgorithm::Sha256, head, tail, 0);
    }
    let algorithm = match git_algorithm_for_sha(&parsed.git_sha) {
        Ok(a) => a,
        Err(e) => {
            return Err(e);
        },
    };
    let commit = match git_object_id_for_sha(algorithm, &parsed.git_sha) {
        Ok(id) => id,
        Err(e) => {
            return Err(e);
        },
    };
    match read_parents(&parsed.parent_oids, algorithm) {
        Ok(parents) => Ok(GitResolutionOrigin { commit, parents }),
        Err(e) => Err(e),
    }
}

proof fn lemma_united(ps: Seq<ParentClosure>, n: int, h: ContentHash)
    requires
        0 <= n <= ps.len(),
    ensures
        united(ps, n).contains(h) <==> exists|i: int|
            0 <= i < n && (#[trigger] ps[i]).closure@.contains(h),
    decreases n,
{
    if n > 0 {
        lemma_united(ps, n - 1, h);
        assert(ps[n - 1].closure@.to_set().contains(h) <==> ps[n - 1].closure@.contains(h));
    }
}

proof fn lemma_none_missing(ps: Seq<ParentClosure>, from: int)
    requires
        0 <= from <= ps.len(),
    ensures
        first_missing(ps, from) is None <==> forall|i: int|
            from <= i < ps.len() ==> (#[trigger] ps[i]).change is Some,
    decreases ps.len() - from,
{
    if from < ps.len() {
        lemma_none_missing(ps, from + 1);
        assert(ps[from].change is Some || first_missing(ps, from) is Some);
    }
}

/// A merge stands on all of its parents: where there is a union, every parent
/// was imported, and the union holds a change exactly when the closure of
/// some parent does.
pub proof fn a_union_holds_every_parent(ps: Seq<ParentClosure>, sha: Seq<char>, h: ContentHash)
    ensures
        merge_union(ps, sha) matches Ok(u) ==> {
            &&& forall|i: int| 0 <= i < ps.len() ==> (#[trigger] ps[i]).change is Some
            &&& u.contains(h) <==> exists|i: int|
                0 <= i < ps.len() && (#[trigger] ps[i]).closure@.contains(h)
        },
        merge_union(ps, sha) is Err ==> (exists|i: int|
            0 <= i < ps.len() && (#[trigger] ps[i]).change is None) || forall|i: int|
            0 <= i < ps.len() ==> (#[trigger] ps[i]).closure@.len() == 0,
{
    let n = ps.len() as int;
    lemma_united(ps, n, h);
    lemma_none_missing(ps, 0);
    if first_missing(ps, 0) is None && united(ps, n) =~= Set::empty() {
        assert forall|i: int| 0 <= i < ps.len() implies (#[trigger] ps[i]).closure@.len() == 0 by {
            if ps[i].closure@.len() > 0 {
                let x = ps[i].closure@[0];
                lemma_united(ps, n, x);
                assert(ps[i].closure@.contains(x));
                assert(united(ps, n).contains(x));
            }
        }
    }
}

/// A merge adds exactly the paths that it holds and the union does not.
pub proof fn only_new_paths_are_added(
    fs: Seq<commit::ParsedFileView>,
    unions: Seq<Option<Vec<u8>>>,
    n: int,
    path: Seq<char>,
)
    requires
        0 <= n <= fs.len(),
        fs.len() == unions.len(),
    ensures
        added_by_merge(fs, unions, n).contains(path) <==> exists|i: int|
            0 <= i < n && (#[trigger] fs[i]).path == path && fs[i].new_content is Some
                && unions[i] is None,
    decreases n,
{
    let all = added_by_merge(fs, unions, n);
    if n > 0 {
        let head = added_by_merge(fs, unions, n - 1);
        only_new_paths_are_added(fs, unions, n - 1, path);
        if all.contains(path) {
            let j = choose|j: int| 0 <= j < all.len() && all[j] == path;
            if j < head.len() {
                assert(head[j] == path);
                assert(head.contains(path));
            } else {
                assert(fs[n - 1].path == path);
            }
        }
        if head.contains(path) {
            let j = choose|j: int| 0 <= j < head.len() && head[j] == path;
            assert(all[j] == path);
        }
        if fs[n - 1].path == path && fs[n - 1].new_content is Some && unions[n - 1] is None {
            assert(all[head.len() as int] == path);
        }
    } else {
        assert(all.len() == 0);
    }
}

} // verus!
