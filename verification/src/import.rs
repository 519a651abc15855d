//! The import of a branch: what is skipped, how each commit is written, and
//! how the outcome is counted and verified.
use crate::commit;
use crate::commit::{FileOperation, ParsedCommit, ParsedFile};
use crate::error::{git_error, internal_error, CliError};
use crate::graph;
use crate::graph::ContentHash;
use crate::message;
use crate::message::{parse_push_trailer, Merkle, PushTrailer};
use crate::text;
use crate::text::{contains_text, replace_char, reversed, same_text, to_decimal};
use vstd::prelude::*;

verus! {

/// Statistics of an import.
#[derive(Clone, Debug)]
pub struct ImportStats {
    /// Commits found in Git.
    pub commits_found: usize,
    /// Commits parsed.
    pub commits_parsed: usize,
    /// Changes written.
    pub changes_written: usize,
    /// Commits restored exactly from verified bindings, a part of the
    /// changes written.
    pub resurrected_exact: usize,
    /// What all events of one import have in common.
    pub correlation_id: String,
    /// Commits without changes.
    pub empty_commits: usize,
    /// Merge commits.
    pub merge_commits: usize,
    /// Commits that were pushed from here, and whose state the view holds.
    pub self_push_skipped: usize,
    /// Squash commits represented by their original changes.
    pub squash_inserted: usize,
    /// Squash commits whose originals are missing or do not lead to the
    /// commit's tree.
    pub squash_skipped: usize,
    /// Files of all commits.
    pub files_processed: usize,
}

impl Default for ImportStats {
    /// Nothing is counted yet, and the events have nothing in common.
    fn default() -> (r: Self)
        ensures
            r.commits_found == 0,
            r.commits_parsed == 0,
            r.changes_written == 0,
            r.resurrected_exact == 0,
            r.correlation_id@ == Seq::<char>::empty(),
            r.empty_commits == 0,
            r.merge_commits == 0,
            r.self_push_skipped == 0,
            r.squash_inserted == 0,
            r.squash_skipped == 0,
            r.files_processed == 0,
    {
        ImportStats {
            commits_found: 0,
            commits_parsed: 0,
            changes_written: 0,
            resurrected_exact: 0,
            correlation_id: String::new(),
            empty_commits: 0,
            merge_commits: 0,
            self_push_skipped: 0,
            squash_inserted: 0,
            squash_skipped: 0,
            files_processed: 0,
        }
    }
}

/// What all events of one import have in common: the time, the process, and
/// the import's number in the process.
pub fn correlation_id(millis: u64, process: u32, sequence: u64) -> (r: String)
    ensures
        r@ == "import-"@ + text::decimal(millis as nat) + "-"@ + text::decimal(process as nat)
            + "-"@ + text::decimal(sequence as nat),
{
    let mut s: String = "import-".to_owned();
    s.append(&to_decimal(millis));
    s.append("-");
    s.append(&to_decimal(process as u64));
    s.append("-");
    s.append(&to_decimal(sequence));
    s
}

/// Options of an import.
#[derive(Clone, Debug)]
pub struct ParallelImportOptions {
    /// Skip commits that are already imported.
    pub incremental: bool,
    /// The ids of the commits that are already imported.
    pub imported_shas: Vec<String>,
    /// The repository's name.
    pub repo_name: String,
    /// Import the history behind the selected branch only.
    pub mainline_only: bool,
    /// Leave out the semantic layer.
    pub graph_only: bool,
    /// Leave the working copy of another view alone.
    pub preserve_working_copy: bool,
    /// The view that is imported into.
    pub target_view: String,
    /// The states that the target view has been in.
    pub known_states: Vec<Merkle>,
    /// Prove the trees of the commits before anything is published.
    pub validate_equivalence: bool,
}

impl Default for ParallelImportOptions {
    fn default() -> (r: Self)
        ensures
            !r.incremental,
            r.imported_shas@.len() == 0,
            r.repo_name@ == "unknown"@,
            r.mainline_only,
            !r.graph_only,
            !r.preserve_working_copy,
            r.target_view@ == Seq::<char>::empty(),
            r.known_states@.len() == 0,
            r.validate_equivalence,
    {
        ParallelImportOptions {
            incremental: false,
            imported_shas: Vec::new(),
            repo_name: "unknown".to_owned(),
            mainline_only: true,
            graph_only: false,
            preserve_working_copy: false,
            target_view: String::new(),
            known_states: Vec::new(),
            validate_equivalence: true,
        }
    }
}

/// Whether a pushed commit adds nothing: it was pushed from the target view,
/// which has been in the state that the commit carries.
pub open spec fn state_known(
    t: message::PushTrailerView,
    target: Seq<char>,
    known: Seq<Merkle>,
) -> bool {
    t.view == target && known.contains(t.state)
}

/// Whether a pushed commit adds nothing.
pub fn self_push_state_known(trailer: &PushTrailer, target_view: &str, known: &Vec<Merkle>) -> (r:
    bool)
    ensures
        r == state_known(trailer@, target_view@, known@),
{
    if !same_text(&trailer.view, target_view) {
        return false;
    }
    let mut i: usize = 0;
    while i < known.len()
        invariant
            i <= known@.len(),
            trailer.view@ == target_view@,
            forall|k: int| 0 <= k < i ==> known@[k] != trailer.state,
        decreases known@.len() - i,
    {
        if known[i] == trailer.state {
            assert(known@.contains(trailer.state));
            return true;
        }
        i += 1;
    }
    false
}

/// Whether a commit is left out because it was pushed from here.
pub open spec fn skips_self_push(p: ParsedCommit, o: ParallelImportOptions) -> bool {
    o.incremental && (match message::opt_push_trailer(p.push_trailer) {
        Some(t) => state_known(t, o.target_view@, o.known_states@),
        None => false,
    })
}

/// Whether a commit is left out because it was pushed from here.
pub fn should_skip_self_push(parsed: &ParsedCommit, options: &ParallelImportOptions) -> (r: bool)
    ensures
        r == skips_self_push(*parsed, *options),
{
    if !options.incremental {
        return false;
    }
    match &parsed.push_trailer {
        Some(t) => self_push_state_known(t, &options.target_view, &options.known_states),
        None => false,
    }
}

/// Whether an incremental import leaves out a commit: it is imported
/// already, or it was pushed from here.
pub open spec fn skips_commit(
    sha: Seq<char>,
    trailer: Option<message::PushTrailerView>,
    imported: Seq<Seq<char>>,
    target: Seq<char>,
    known: Seq<Merkle>,
) -> bool {
    imported.contains(sha) || (match trailer {
        Some(t) => state_known(t, target, known),
        None => false,
    })
}

/// Whether an incremental import leaves out the commit with this id and
/// message. `decoded` is the state that the message carries, where it is
/// readable.
pub fn incremental_import_skips(
    sha: &str,
    message: &str,
    decoded: Option<Merkle>,
    imported_shas: &Vec<String>,
    target_view: &str,
    known_states: &Vec<Merkle>,
) -> (r: bool)
    ensures
        r == skips_commit(
            sha@,
            message::push_trailer_of(message@, decoded),
            text::texts(imported_shas@),
            target_view@,
            known_states@,
        ),
{
    if contains_text(imported_shas, sha) {
        return true;
    }
    match parse_push_trailer(message, decoded) {
        Some(t) => self_push_state_known(&t, target_view, known_states),
        None => false,
    }
}

/// The forecast of an import agrees with the import: of the commits that are
/// not imported yet, both leave out the same.
pub proof fn forecast_agrees_with_import(p: ParsedCommit, o: ParallelImportOptions)
    requires
        o.incremental,
        !text::texts(o.imported_shas@).contains(p.git_sha@),
    ensures
        skips_commit(
            p.git_sha@,
            message::opt_push_trailer(p.push_trailer),
            text::texts(o.imported_shas@),
            o.target_view@,
            o.known_states@,
        ) == skips_self_push(p, o),
{
}

/// The commits that are not imported yet, in order.
pub open spec fn not_imported(ordered: Seq<Seq<char>>, imported: Seq<Seq<char>>) -> Seq<Seq<char>> {
    ordered.filter(|s: Seq<char>| !imported.contains(s))
}

/// Leave out the commits that are imported already.
pub fn drop_imported(ordered: &Vec<String>, imported: &Vec<String>) -> (r: Vec<String>)
    ensures
        text::texts(r@) == not_imported(text::texts(ordered@), text::texts(imported@)),
{
    let ghost all = text::texts(ordered@);
    let ghost im = text::texts(imported@);
    let ghost keep = |s: Seq<char>| !im.contains(s);
    let mut out: Vec<String> = Vec::new();
    let mut i: usize = 0;
    proof {
        reveal(Seq::filter);
        assert(text::texts(out@) =~= all.take(0).filter(keep));
    }
    while i < ordered.len()
        invariant
            i <= ordered@.len(),
            all == text::texts(ordered@),
            im == text::texts(imported@),
            keep == (|s: Seq<char>| !im.contains(s)),
            text::texts(out@) == all.take(i as int).filter(keep),
        decreases ordered@.len() - i,
    {
        assert(all[i as int] == ordered@[i as int]@);
        proof {
            reveal(Seq::filter);
            assert(all.take(i as int + 1).drop_last() =~= all.take(i as int));
            assert(all.take(i as int + 1).last() == all[i as int]);
        }
        let ghost before = text::texts(out@);
        if !contains_text(imported, &ordered[i]) {
            out.push(ordered[i].as_str().to_owned());
            assert(text::texts(out@) =~= before.push(all[i as int]));
        }
        i += 1;
    }
    assert(all.take(i as int) =~= all);
    out
}

/// The place of a commit in a list of ids; behind the list where it is not
/// in it.
pub open spec fn place_in(ids: Seq<Seq<char>>, sha: Seq<char>) -> int
    decreases ids.len(),
{
    if ids.len() == 0 {
        0
    } else if ids[0] == sha {
        0
    } else {
        1 + place_in(ids.skip(1), sha)
    }
}

/// The list with a commit behind all that do not come after it.
pub open spec fn placed(list: Seq<ParsedCommit>, ids: Seq<Seq<char>>, c: ParsedCommit) -> Seq<
    ParsedCommit,
>
    decreases list.len(),
{
    if list.len() == 0 {
        seq![c]
    } else if place_in(ids, list.last().git_sha@) <= place_in(ids, c.git_sha@) {
        list.push(c)
    } else {
        placed(list.drop_last(), ids, c).push(list.last())
    }
}

/// The commits in the order of the ids; those at the same place keep theirs.
pub open spec fn in_order(cs: Seq<ParsedCommit>, ids: Seq<Seq<char>>) -> Seq<ParsedCommit>
    decreases cs.len(),
{
    if cs.len() == 0 {
        seq![]
    } else {
        placed(in_order(cs.drop_last(), ids), ids, cs.last())
    }
}

fn place_of(ids: &Vec<String>, sha: &str) -> (r: usize)
    ensures
        r == place_in(text::texts(ids@), sha@),
        r <= ids@.len(),
{
    let ghost iv = text::texts(ids@);
    let mut i: usize = 0;
    assert(iv.skip(0) =~= iv);
    while i < ids.len()
        invariant
            i <= ids@.len(),
            iv == text::texts(ids@),
            place_in(iv, sha@) == i + place_in(iv.skip(i as int), sha@),
        decreases ids@.len() - i,
    {
        assert(iv.skip(i as int)[0] == ids@[i as int]@);
        if same_text(&ids[i], sha) {
            return i;
        }
        assert(iv.skip(i as int).skip(1) =~= iv.skip(i as int + 1));
        i += 1;
    }
    i
}

proof fn lemma_placed_at(list: Seq<ParsedCommit>, ids: Seq<Seq<char>>, c: ParsedCommit, j: int)
    requires
        0 <= j <= list.len(),
        j > 0 ==> place_in(ids, list[j - 1].git_sha@) <= place_in(ids, c.git_sha@),
        forall|k: int|
            j <= k < list.len() ==> place_in(ids, #[trigger] list[k].git_sha@) > place_in(
                ids,
                c.git_sha@,
            ),
    ensures
        placed(list, ids, c) == list.insert(j, c),
    decreases list.len(),
{
    if list.len() == 0 || j == list.len() {
        assert(placed(list, ids, c) =~= list.insert(j, c));
    } else {
        assert(place_in(ids, list[list.len() - 1].git_sha@) > place_in(ids, c.git_sha@));
        lemma_placed_at(list.drop_last(), ids, c, j);
        assert(list.drop_last().insert(j, c).push(list.last()) =~= list.insert(j, c));
    }
}

/// Whether commits stand in the order of the ids, none twice.
pub open spec fn rises(cs: Seq<ParsedCommit>, ids: Seq<Seq<char>>) -> bool {
    forall|i: int, j: int|
        0 <= i < j < cs.len() ==> place_in(ids, (#[trigger] cs[i]).git_sha@) < place_in(
            ids,
            (#[trigger] cs[j]).git_sha@,
        )
}

/// Whether commits are among those of the ids, none twice.
pub open spec fn are_among(cs: Seq<ParsedCommit>, ids: Seq<Seq<char>>) -> bool {
    &&& forall|i: int| 0 <= i < cs.len() ==> ids.contains((#[trigger] cs[i]).git_sha@)
    &&& forall|i: int, j: int|
        0 <= i < j < cs.len() ==> (#[trigger] cs[i]).git_sha@ != (#[trigger] cs[j]).git_sha@
}

proof fn lemma_place_in(ids: Seq<Seq<char>>, sha: Seq<char>)
    requires
        ids.contains(sha),
    ensures
        0 <= place_in(ids, sha) < ids.len(),
        ids[place_in(ids, sha)] == sha,
    decreases ids.len(),
{
    if ids[0] != sha {
        let k = choose|k: int| 0 <= k < ids.len() && ids[k] == sha;
        assert(ids.skip(1)[k - 1] == sha);
        lemma_place_in(ids.skip(1), sha);
    }
}

proof fn lemma_placed_rises(list: Seq<ParsedCommit>, ids: Seq<Seq<char>>, c: ParsedCommit)
    requires
        rises(list, ids),
        ids.contains(c.git_sha@),
        forall|i: int|
            0 <= i < list.len() ==> ids.contains((#[trigger] list[i]).git_sha@) && list[i].git_sha@
                != c.git_sha@,
    ensures
        rises(placed(list, ids, c), ids),
        placed(list, ids, c).len() == list.len() + 1,
        forall|k: int|
            0 <= k < placed(list, ids, c).len() ==> (#[trigger] placed(list, ids, c)[k]) == c
                || list.contains(placed(list, ids, c)[k]),
        forall|x: ParsedCommit|
            list.contains(x) || x == c ==> #[trigger] placed(list, ids, c).contains(x),
    decreases list.len(),
{
    let out = placed(list, ids, c);
    if list.len() == 0 {
        assert(out[0] == c);
    } else {
        let n = list.len() - 1;
        let last = list[n];
        lemma_place_in(ids, c.git_sha@);
        lemma_place_in(ids, last.git_sha@);
        if place_in(ids, last.git_sha@) <= place_in(ids, c.git_sha@) {
            assert(place_in(ids, last.git_sha@) < place_in(ids, c.git_sha@));
            assert(out[n + 1] == c);
            assert forall|k: int| 0 <= k < out.len() implies #[trigger] out[k] == c
                || list.contains(out[k]) by {
                if k <= n {
                    assert(list[k] == out[k]);
                }
            }
            assert forall|x: ParsedCommit| list.contains(x) || x == c implies #[trigger] out.contains(
                x,
            ) by {
                if list.contains(x) {
                    let k = choose|k: int| 0 <= k < list.len() && list[k] == x;
                    assert(out[k] == x);
                }
            }
        } else {
            let head = list.drop_last();
            lemma_placed_rises(head, ids, c);
            let mid = placed(head, ids, c);
            assert forall|i: int, j: int| 0 <= i < j < out.len() implies place_in(
                ids,
                (#[trigger] out[i]).git_sha@,
            ) < place_in(ids, (#[trigger] out[j]).git_sha@) by {
                if j == out.len() - 1 {
                    assert(out[i] == mid[i]);
                    if mid[i] != c {
                        let k = choose|k: int| 0 <= k < head.len() && head[k] == mid[i];
                        assert(list[k] == mid[i]);
                        assert(place_in(ids, list[k].git_sha@) < place_in(ids, list[n].git_sha@));
                    }
                } else {
                    assert(out[i] == mid[i] && out[j] == mid[j]);
                }
            }
            assert forall|k: int| 0 <= k < out.len() implies #[trigger] out[k] == c
                || list.contains(out[k]) by {
                if k < out.len() - 1 {
                    assert(out[k] == mid[k]);
                    if mid[k] != c {
                        let i = choose|i: int| 0 <= i < head.len() && head[i] == mid[k];
                        assert(list[i] == mid[k]);
                    }
                } else {
                    assert(list[n] == out[k]);
                }
            }
            assert forall|x: ParsedCommit| list.contains(x) || x == c implies #[trigger] out.contains(
                x,
            ) by {
                if x == last {
                    assert(out[out.len() - 1] == x);
                } else {
                    if list.contains(x) {
                        let i = choose|i: int| 0 <= i < list.len() && list[i] == x;
                        assert(head[i] == x);
                    }
                    assert(mid.contains(x));
                    let i = choose|i: int| 0 <= i < mid.len() && mid[i] == x;
                    assert(out[i] == x);
                }
            }
        }
    }
}

/// Commits that are brought into the order of their ids stand in it: each of
/// them once, every one behind those before it in the order, and none is
/// lost.
pub proof fn restored_commits_follow_the_order(cs: Seq<ParsedCommit>, ids: Seq<Seq<char>>)
    requires
        are_among(cs, ids),
    ensures
        rises(in_order(cs, ids), ids),
        are_among(in_order(cs, ids), ids),
        in_order(cs, ids).len() == cs.len(),
        forall|x: ParsedCommit| #[trigger] in_order(cs, ids).contains(x) <==> cs.contains(x),
    decreases cs.len(),
{
    let out = in_order(cs, ids);
    if cs.len() > 0 {
        let head = cs.drop_last();
        let last = cs.last();
        assert forall|i: int| 0 <= i < head.len() implies ids.contains(
            (#[trigger] head[i]).git_sha@,
        ) by {
            assert(head[i] == cs[i]);
        }
        assert forall|i: int, j: int| 0 <= i < j < head.len() implies (
        #[trigger] head[i]).git_sha@ != (#[trigger] head[j]).git_sha@ by {
            assert(cs[i].git_sha@ != cs[j].git_sha@);
        }
        restored_commits_follow_the_order(head, ids);
        let mid = in_order(head, ids);
        assert(ids.contains(cs[cs.len() - 1].git_sha@));
        assert forall|i: int| 0 <= i < mid.len() implies ids.contains((#[trigger] mid[i]).git_sha@)
            && mid[i].git_sha@ != last.git_sha@ by {
            assert(mid.contains(mid[i]));
            let k = choose|k: int| 0 <= k < head.len() && head[k] == mid[i];
            assert(cs[k].git_sha@ != cs[cs.len() - 1].git_sha@);
        }
        lemma_placed_rises(mid, ids, last);
        assert forall|x: ParsedCommit| #[trigger] out.contains(x) <==> cs.contains(x) by {
            if out.contains(x) {
                let k = choose|k: int| 0 <= k < out.len() && out[k] == x;
                assert(out[k] == last || mid.contains(out[k]));
                if x == last {
                    assert(cs[cs.len() - 1] == x);
                } else {
                    assert(head.contains(x));
                    let i = choose|i: int| 0 <= i < head.len() && head[i] == x;
                    assert(cs[i] == x);
                }
            }
            if cs.contains(x) {
                let i = choose|i: int| 0 <= i < cs.len() && cs[i] == x;
                if i < cs.len() - 1 {
                    assert(head[i] == x);
                    assert(mid.contains(x));
                }
            }
        }
        assert forall|i: int| 0 <= i < out.len() implies ids.contains((#[trigger] out[i]).git_sha@) by {
            assert(out.contains(out[i]));
            let k = choose|k: int| 0 <= k < cs.len() && cs[k] == out[i];
            assert(ids.contains(cs[k].git_sha@));
        }
        assert forall|i: int, j: int| 0 <= i < j < out.len() implies (#[trigger] out[i]).git_sha@
            != (#[trigger] out[j]).git_sha@ by {
            assert(place_in(ids, out[i].git_sha@) < place_in(ids, out[j].git_sha@));
        }
    }
}

/// Tell whether commits are among those of the ids, none twice.
pub fn among(commits: &Vec<ParsedCommit>, ids: &Vec<String>) -> (r: bool)
    ensures
        r == are_among(commits@, text::texts(ids@)),
{
    let mut seen: Vec<String> = Vec::new();
    let mut i: usize = 0;
    while i < commits.len()
        invariant
            i <= commits@.len(),
            seen@.len() == i,
            forall|k: int| 0 <= k < i ==> (#[trigger] seen@[k])@ == commits@[k].git_sha@,
            forall|k: int|
                0 <= k < i ==> text::texts(ids@).contains((#[trigger] commits@[k]).git_sha@),
            forall|j: int, k: int|
                0 <= j < k < i ==> (#[trigger] commits@[j]).git_sha@ != (
                #[trigger] commits@[k]).git_sha@,
        decreases commits@.len() - i,
    {
        let sha: &String = &commits[i].git_sha;
        if !contains_text(ids, sha) {
            assert(!text::texts(ids@).contains(commits@[i as int].git_sha@));
            return false;
        }
        if contains_text(&seen, sha) {
            proof {
                let j = choose|j: int|
                    0 <= j < text::texts(seen@).len() && text::texts(seen@)[j] == sha@;
                assert(seen@[j]@ == sha@);
                assert(commits@[j].git_sha@ == commits@[i as int].git_sha@);
            }
            return false;
        }
        proof {
            assert forall|j: int| 0 <= j < i implies (#[trigger] commits@[j]).git_sha@ != sha@ by {
                assert(text::texts(seen@)[j] == seen@[j]@);
            }
        }
        seen.push(sha.as_str().to_owned());
        i += 1;
    }
    true
}

/// Bring the parsed commits into the order of the ids.
pub fn restore_order(ids: &Vec<String>, parsed: Vec<ParsedCommit>) -> (r: Vec<ParsedCommit>)
    ensures
        r@ == in_order(parsed@, text::texts(ids@)),
{
    let ghost iv = text::texts(ids@);
    let ghost all = parsed@;
    let mut rest: Vec<ParsedCommit> = reversed(parsed);
    let mut out: Vec<ParsedCommit> = Vec::new();
    let ghost mut n: int = 0;
    assert(all.take(0) =~= seq![]);
    assert(rest@.reverse() =~= all.skip(0));
    while rest.len() > 0
        invariant
            iv == text::texts(ids@),
            0 <= n <= all.len(),
            rest@.reverse() == all.skip(n),
            out@ == in_order(all.take(n), iv),
        decreases rest@.len(),
    {
        let ghost held = rest@;
        assert(held.reverse()[0] == held[held.len() - 1]);
        assert(held.reverse().len() == all.len() - n);
        let c = match rest.pop() {
            Some(c) => c,
            None => {
                return out;
            },
        };
        assert(all.skip(n)[0] == all[n]);
        assert(rest@.reverse() =~= held.reverse().drop_first());
        assert(all.skip(n).drop_first() =~= all.skip(n + 1));
        let p: usize = place_of(ids, &c.git_sha);
        let mut j: usize = out.len();
        let mut going: bool = true;
        while going && j > 0
            invariant
                j <= out@.len(),
                iv == text::texts(ids@),
                p == place_in(iv, c.git_sha@),
                forall|k: int|
                    j <= k < out@.len() ==> place_in(iv, #[trigger] out@[k].git_sha@) > p,
                !going ==> j > 0 && place_in(iv, out@[j - 1].git_sha@) <= p,
            decreases j + if going {
                1int
            } else {
                0int
            },
        {
            let q: usize = place_of(ids, &out[j - 1].git_sha);
            if q <= p {
                going = false;
            } else {
                j -= 1;
            }
        }
        proof {
            lemma_placed_at(out@, iv, c, j as int);
            assert(all.take(n + 1).drop_last() =~= all.take(n));
            assert(all.take(n + 1).last() == c);
        }
        out.insert(j, c);
        proof {
            n = n + 1;
        }
    }
    assert(n == all.len()) by {
        assert(rest@.reverse().len() == 0);
    }
    assert(all.take(n) =~= all);
    out
}

/// What came of one commit.
#[derive(Clone, Copy, Debug, PartialEq, Eq, Structural)]
pub enum CommitOutcome {
    /// It was pushed from here, and adds nothing.
    SelfPushSkipped,
    /// It is a squash, represented by its original changes.
    SquashInserted,
    /// It is a squash whose originals are missing or diverge.
    SquashSkipped,
    /// It was restored from a verified binding.
    Resurrected,
    /// It was written as a merge.
    MergeWritten,
    /// It was written as an empty commit.
    EmptyWritten,
    /// It was written as a change.
    ChangeWritten,
}

/// Statistics of the write phase.
#[derive(Debug)]
pub struct WriteStats {
    pub changes_written: usize,
    /// A part of the changes written.
    pub resurrected_exact: usize,
    pub empty_commits: usize,
    pub merge_commits: usize,
    pub self_push_skipped: usize,
    pub squash_inserted: usize,
    pub squash_skipped: usize,
    pub files_processed: usize,
    /// Why the phase stopped early, where it did.
    pub failure: Option<String>,
}

/// A `WriteStats` as a value.
#[verifier::ext_equal]
pub struct WriteStatsView {
    pub changes_written: nat,
    pub resurrected_exact: nat,
    pub empty_commits: nat,
    pub merge_commits: nat,
    pub self_push_skipped: nat,
    pub squash_inserted: nat,
    pub squash_skipped: nat,
    pub files_processed: nat,
    pub failure: Option<Seq<char>>,
}

impl View for WriteStats {
    type V = WriteStatsView;

    open spec fn view(&self) -> WriteStatsView {
        WriteStatsView {
            changes_written: self.changes_written as nat,
            resurrected_exact: self.resurrected_exact as nat,
            empty_commits: self.empty_commits as nat,
            merge_commits: self.merge_commits as nat,
            self_push_skipped: self.self_push_skipped as nat,
            squash_inserted: self.squash_inserted as nat,
            squash_skipped: self.squash_skipped as nat,
            files_processed: self.files_processed as nat,
            failure: text::opt_text(self.failure),
        }
    }
}

/// Nothing is counted yet.
pub open spec fn nothing_written() -> WriteStatsView {
    WriteStatsView {
        changes_written: 0,
        resurrected_exact: 0,
        empty_commits: 0,
        merge_commits: 0,
        self_push_skipped: 0,
        squash_inserted: 0,
        squash_skipped: 0,
        files_processed: 0,
        failure: None,
    }
}

/// How many commits are accounted for.
pub open spec fn accounted(s: WriteStatsView) -> nat {
    s.changes_written + s.empty_commits + s.merge_commits + s.self_push_skipped
        + s.squash_inserted + s.squash_skipped
}

/// Whether the files of a commit are counted.
pub open spec fn processes_files(o: CommitOutcome) -> bool {
    o != CommitOutcome::SelfPushSkipped && o != CommitOutcome::SquashSkipped
}

/// The statistics once a further commit with `files` files is counted.
pub open spec fn counted(s: WriteStatsView, o: CommitOutcome, files: nat) -> WriteStatsView {
    let s = if processes_files(o) {
        WriteStatsView { files_processed: s.files_processed + files, ..s }
    } else {
        s
    };
    match o {
        CommitOutcome::SelfPushSkipped => WriteStatsView {
            self_push_skipped: s.self_push_skipped + 1,
            ..s
        },
        CommitOutcome::SquashInserted => WriteStatsView {
            squash_inserted: s.squash_inserted + 1,
            ..s
        },
        CommitOutcome::SquashSkipped => WriteStatsView {
            squash_skipped: s.squash_skipped + 1,
            ..s
        },
        CommitOutcome::Resurrected => WriteStatsView {
            changes_written: s.changes_written + 1,
            resurrected_exact: s.resurrected_exact + 1,
            ..s
        },
        CommitOutcome::MergeWritten => WriteStatsView { merge_commits: s.merge_commits + 1, ..s },
        CommitOutcome::EmptyWritten => WriteStatsView { empty_commits: s.empty_commits + 1, ..s },
        CommitOutcome::ChangeWritten => WriteStatsView {
            changes_written: s.changes_written + 1,
            ..s
        },
    }
}

/// The statistics of a run of commits, each with the number of its files.
pub open spec fn counted_all(os: Seq<(CommitOutcome, nat)>) -> WriteStatsView
    decreases os.len(),
{
    if os.len() == 0 {
        nothing_written()
    } else {
        counted(counted_all(os.drop_last()), os.last().0, os.last().1)
    }
}

/// Every commit is accounted for exactly once, and what was restored is part
/// of what was written.
pub proof fn every_commit_is_accounted_for(os: Seq<(CommitOutcome, nat)>)
    ensures
        accounted(counted_all(os)) == os.len(),
        counted_all(os).resurrected_exact <= counted_all(os).changes_written,
        counted_all(os).failure is None,
    decreases os.len(),
{
    if os.len() > 0 {
        every_commit_is_accounted_for(os.drop_last());
    }
}

impl WriteStats {
    /// Nothing is counted yet.
    pub fn new() -> (r: WriteStats)
        ensures
            r@ == nothing_written(),
    {
        WriteStats {
            changes_written: 0,
            resurrected_exact: 0,
            empty_commits: 0,
            merge_commits: 0,
            self_push_skipped: 0,
            squash_inserted: 0,
            squash_skipped: 0,
            files_processed: 0,
            failure: None,
        }
    }

    /// Whether a further commit can be counted.
    pub open spec fn has_room(&self, files: nat) -> bool {
        &&& accounted(self@) < usize::MAX
        &&& self.resurrected_exact < usize::MAX
        &&& self.files_processed + files <= usize::MAX
    }

    /// Count a further commit.
    pub fn count(&mut self, outcome: CommitOutcome, files: usize)
        requires
            old(self).has_room(files as nat),
        ensures
            final(self)@ == counted(old(self)@, outcome, files as nat),
    {
        match outcome {
            CommitOutcome::SelfPushSkipped => {
                self.self_push_skipped = self.self_push_skipped + 1;
            },
            CommitOutcome::SquashInserted => {
                self.squash_inserted = self.squash_inserted + 1;
                self.files_processed = self.files_processed + files;
            },
            CommitOutcome::SquashSkipped => {
                self.squash_skipped = self.squash_skipped + 1;
            },
            CommitOutcome::Resurrected => {
                self.changes_written = self.changes_written + 1;
                self.resurrected_exact = self.resurrected_exact + 1;
                self.files_processed = self.files_processed + files;
            },
            CommitOutcome::MergeWritten => {
                self.merge_commits = self.merge_commits + 1;
                self.files_processed = self.files_processed + files;
            },
            CommitOutcome::EmptyWritten => {
                self.empty_commits = self.empty_commits + 1;
                self.files_processed = self.files_processed + files;
            },
            CommitOutcome::ChangeWritten => {
                self.changes_written = self.changes_written + 1;
                self.files_processed = self.files_processed + files;
            },
        }
    }

    /// Stop early, and remember why.
    pub fn fail(&mut self, why: String)
        ensures
            final(self)@ == (WriteStatsView { failure: Some(why@), ..old(self)@ }),
    {
        self.failure = Some(why);
    }
}

/// What came of a commit that was written.
pub open spec fn written_outcome(is_merge: bool, is_empty: bool) -> CommitOutcome {
    if is_merge {
        CommitOutcome::MergeWritten
    } else if is_empty {
        CommitOutcome::EmptyWritten
    } else {
        CommitOutcome::ChangeWritten
    }
}

/// What is to be done next for a commit.
#[derive(Clone, Copy, Debug, PartialEq, Eq, Structural)]
pub enum WriteAction {
    /// Try to represent it by its original changes.
    TrySquashInsert,
    /// Look for a verified binding.
    FindBinding,
    /// Restore it from the binding.
    Resurrect,
    /// Write it.
    Write,
    /// It is done.
    Done(CommitOutcome),
}

/// What came of the last thing done for a commit.
#[derive(Clone, Copy, Debug, PartialEq, Eq, Structural)]
pub enum WriteEvent {
    Start,
    NotSquash,
    SquashInserted,
    SquashSkipped,
    BindingFound,
    NoBinding,
    Resurrected,
    Written,
}

/// What is to be done next for a commit: nothing for what was pushed from
/// here; then, in an incremental import, its original changes; then a
/// verified binding; and only then is it written.
pub open spec fn next_action_of(
    p: ParsedCommit,
    o: ParallelImportOptions,
    e: WriteEvent,
) -> WriteAction {
    match e {
        WriteEvent::Start => if skips_self_push(p, o) {
            WriteAction::Done(CommitOutcome::SelfPushSkipped)
        } else if o.incremental {
            WriteAction::TrySquashInsert
        } else {
            WriteAction::FindBinding
        },
        WriteEvent::NotSquash => WriteAction::FindBinding,
        WriteEvent::SquashInserted => WriteAction::Done(CommitOutcome::SquashInserted),
        WriteEvent::SquashSkipped => WriteAction::Done(CommitOutcome::SquashSkipped),
        WriteEvent::BindingFound => WriteAction::Resurrect,
        WriteEvent::NoBinding => WriteAction::Write,
        WriteEvent::Resurrected => WriteAction::Done(CommitOutcome::Resurrected),
        WriteEvent::Written => WriteAction::Done(written_outcome(p.is_merge, p.is_empty)),
    }
}

/// Decide what is to be done next for a commit.
pub fn next_action(parsed: &ParsedCommit, options: &ParallelImportOptions, event: WriteEvent) -> (r:
    WriteAction)
    ensures
        r == next_action_of(*parsed, *options, event),
{
    match event {
        WriteEvent::Start => if should_skip_self_push(parsed, options) {
            WriteAction::Done(CommitOutcome::SelfPushSkipped)
        } else if options.incremental {
            WriteAction::TrySquashInsert
        } else {
            WriteAction::FindBinding
        },
        WriteEvent::NotSquash => WriteAction::FindBinding,
        WriteEvent::SquashInserted => WriteAction::Done(CommitOutcome::SquashInserted),
        WriteEvent::SquashSkipped => WriteAction::Done(CommitOutcome::SquashSkipped),
        WriteEvent::BindingFound => WriteAction::Resurrect,
        WriteEvent::NoBinding => WriteAction::Write,
        WriteEvent::Resurrected => WriteAction::Done(CommitOutcome::Resurrected),
        WriteEvent::Written => if parsed.is_merge {
            WriteAction::Done(CommitOutcome::MergeWritten)
        } else if parsed.is_empty {
            WriteAction::Done(CommitOutcome::EmptyWritten)
        } else {
            WriteAction::Done(CommitOutcome::ChangeWritten)
        },
    }
}

/// How a commit is written.
#[derive(Clone, Copy, Debug, PartialEq, Eq, Structural)]
pub enum WriteRoute {
    /// Refer to the change that it was written as before.
    Reuse,
    /// As a resolution of its parents' union.
    MergeResolution,
    /// From its files.
    Synthesize,
    /// As an empty change.
    Empty,
}

/// How a commit is written.
pub open spec fn write_route_of(known: bool, is_merge: bool, is_empty: bool) -> WriteRoute {
    if known {
        WriteRoute::Reuse
    } else if is_merge {
        WriteRoute::MergeResolution
    } else if is_empty {
        WriteRoute::Empty
    } else {
        WriteRoute::Synthesize
    }
}

/// Decide how a commit is written; `existing` is the change that it was
/// written as before, if it was.
pub fn write_route(existing: Option<ContentHash>, parsed: &ParsedCommit) -> (r: WriteRoute)
    ensures
        r == write_route_of(existing is Some, parsed.is_merge, parsed.is_empty),
{
    if existing.is_some() {
        WriteRoute::Reuse
    } else if parsed.is_merge {
        WriteRoute::MergeResolution
    } else if parsed.is_empty {
        WriteRoute::Empty
    } else {
        WriteRoute::Synthesize
    }
}

/// How many commits an import accounts for.
pub open spec fn accounted_in(s: ImportStats) -> nat {
    s.changes_written as nat + s.empty_commits as nat + s.merge_commits as nat
        + s.self_push_skipped as nat + s.squash_inserted as nat + s.squash_skipped as nat
}

/// Why an import fails its verification.
pub open spec fn unaccounted_text(parsed: nat, accounted: nat) -> Seq<char> {
    "Import verification failed: "@ + text::decimal(parsed) + " commits parsed but "@
        + text::decimal(accounted) + " changes created"@
}

/// The importer of one Git repository.
#[derive(Debug)]
pub struct ParallelImporter {
    /// The Git directory itself.
    pub git_repo_path: String,
    pub options: ParallelImportOptions,
}

impl ParallelImporter {
    /// An importer of the repository with this Git directory.
    pub fn new(git_repo_path: String, options: ParallelImportOptions) -> (r: ParallelImporter)
        ensures
            r.git_repo_path == git_repo_path,
            r.options == options,
    {
        ParallelImporter { git_repo_path, options }
    }

    /// How many commits are imported at a time, whatever their total.
    pub fn batch_size_for(total: usize) -> (r: usize)
        ensures
            r == 1_000,
    {
        1_000
    }

    /// Verify that an import accounts for every parsed commit. The sum of
    /// its counts must not run over.
    pub fn phase3_finalize(&self, stats: &ImportStats) -> (r: Result<(), CliError>)
        requires
            accounted_in(*stats) <= usize::MAX,
        ensures
            accounted_in(*stats) == stats.commits_parsed ==> r is Ok,
            accounted_in(*stats) != stats.commits_parsed ==> (r matches Err(e) && e.is_git_error(
                unaccounted_text(stats.commits_parsed as nat, accounted_in(*stats)),
            )),
    {
        let actual: usize = stats.changes_written + stats.empty_commits + stats.merge_commits
            + stats.self_push_skipped + stats.squash_inserted + stats.squash_skipped;
        if actual == stats.commits_parsed {
            return Ok(());
        }
        let mut m: String = "Import verification failed: ".to_owned();
        m.append(&to_decimal(stats.commits_parsed as u64));
        m.append(" commits parsed but ");
        m.append(&to_decimal(actual as u64));
        m.append(" changes created");
        Err(git_error(m))
    }

    /// The statistics at the start of an import.
    pub fn initial_stats(commits: usize, correlation_id: String) -> (r: ImportStats)
        ensures
            r.commits_found == commits,
            r.commits_parsed == commits,
            accounted_in(r) == 0,
            r.resurrected_exact == 0,
            r.files_processed == 0,
            r.correlation_id == correlation_id,
    {
        ImportStats {
            commits_found: commits,
            commits_parsed: commits,
            changes_written: 0,
            resurrected_exact: 0,
            correlation_id,
            empty_commits: 0,
            merge_commits: 0,
            self_push_skipped: 0,
            squash_inserted: 0,
            squash_skipped: 0,
            files_processed: 0,
        }
    }
}

/// Whether the statistics `a` of an import hold what the write phase
/// counted, and otherwise what they held before.
pub open spec fn takes_counts(a: ImportStats, before: ImportStats, w: WriteStatsView) -> bool {
    &&& a.commits_found == before.commits_found
    &&& a.commits_parsed == before.commits_parsed
    &&& a.correlation_id == before.correlation_id
    &&& a.changes_written == w.changes_written
    &&& a.resurrected_exact == w.resurrected_exact
    &&& a.empty_commits == w.empty_commits
    &&& a.merge_commits == w.merge_commits
    &&& a.files_processed == w.files_processed
}

/// How many commits had landed when the write phase stopped.
pub open spec fn landed(w: WriteStatsView) -> nat {
    w.changes_written + w.empty_commits + w.merge_commits
}

/// Why a partial import fails.
pub open spec fn partial_import_text(landed: nat, failure: Seq<char>) -> Seq<char> {
    "partial import failed after "@ + text::decimal(landed) + " landed commit(s): "@ + failure
}

impl ImportStats {
    /// Take over what the write phase counted. Where it stopped early, the
    /// skipped commits are not taken over, and the result is the number of
    /// commits that had landed, and the error.
    pub fn complete(&mut self, written: &WriteStats) -> (r: Option<(usize, CliError)>)
        requires
            accounted(written@) <= usize::MAX,
        ensures
            takes_counts(*final(self), *old(self), written@),
            match written@.failure {
                None => r is None && final(self).self_push_skipped == written.self_push_skipped
                    && final(self).squash_inserted == written.squash_inserted
                    && final(self).squash_skipped == written.squash_skipped,
                Some(f) => final(self).self_push_skipped == old(self).self_push_skipped
                    && final(self).squash_inserted == old(self).squash_inserted
                    && final(self).squash_skipped == old(self).squash_skipped && (
                r matches Some((n, e)) && n == landed(written@) && e.is_internal(
                    partial_import_text(landed(written@), f),
                )),
            },
    {
        self.changes_written = written.changes_written;
        self.resurrected_exact = written.resurrected_exact;
        self.empty_commits = written.empty_commits;
        self.merge_commits = written.merge_commits;
        self.files_processed = written.files_processed;
        match &written.failure {
            Some(failure) => {
                let n: usize = written.changes_written + written.empty_commits
                    + written.merge_commits;
                let mut m: String = "partial import failed after ".to_owned();
                m.append(&to_decimal(n as u64));
                m.append(" landed commit(s): ");
                m.append(failure);
                Some((n, internal_error(m)))
            },
            None => {
                self.self_push_skipped = written.self_push_skipped;
                self.squash_inserted = written.squash_inserted;
                self.squash_skipped = written.squash_skipped;
                None
            },
        }
    }
}

/// An import whose write phase handles every parsed commit passes its
/// verification, and one that stops early accounts for fewer commits than
/// were parsed.
pub proof fn complete_imports_verify(
    os: Seq<(CommitOutcome, nat)>,
    w: WriteStatsView,
    before: ImportStats,
    after: ImportStats,
)
    requires
        counted_all(os) == (WriteStatsView { failure: None, ..w }),
        takes_counts(after, before, w),
        after.self_push_skipped == w.self_push_skipped,
        after.squash_inserted == w.squash_inserted,
        after.squash_skipped == w.squash_skipped,
    ensures
        accounted_in(after) == os.len(),
        os.len() == before.commits_parsed <==> accounted_in(after) == after.commits_parsed,
{
    every_commit_is_accounted_for(os);
}

/// What is told of the commits that were pushed from here.
pub open spec fn skipped_text(n: nat) -> Seq<char> {
    "Skipped "@ + text::decimal(n) + " commit"@ + (if n == 1 {
        ""@
    } else {
        "s"@
    }) + " created by `atomic git push` (state already in view)"@
}

/// Tell of the commits that were pushed from here, where there are any.
pub fn skipped_notice(stats: &ImportStats) -> (r: Option<String>)
    ensures
        match r {
            Some(t) => stats.self_push_skipped > 0 && t@ == skipped_text(
                stats.self_push_skipped as nat,
            ),
            None => stats.self_push_skipped == 0,
        },
{
    if stats.self_push_skipped == 0 {
        return None;
    }
    let mut m: String = "Skipped ".to_owned();
    m.append(&to_decimal(stats.self_push_skipped as u64));
    m.append(" commit");
    m.append(if stats.self_push_skipped == 1 {
        ""
    } else {
        "s"
    });
    m.append(" created by `atomic git push` (state already in view)");
    Some(m)
}

/// What is done once all commits are written.
#[derive(Clone, Copy, Debug, PartialEq, Eq, Structural)]
pub enum FinishMode {
    /// Nothing: the plan has proved the tree.
    Proved,
    /// Drop what is cached of files that are gone from the working copy.
    DropStaleCache,
    /// Bring the recorded files and the working copy together.
    Reconcile,
}

/// Decide what is done once all commits are written.
pub fn finish_mode(options: &ParallelImportOptions) -> (r: FinishMode)
    ensures
        r == if options.validate_equivalence {
            FinishMode::Proved
        } else if options.preserve_working_copy {
            FinishMode::DropStaleCache
        } else {
            FinishMode::Reconcile
        },
{
    if options.validate_equivalence {
        FinishMode::Proved
    } else if options.preserve_working_copy {
        FinishMode::DropStaleCache
    } else {
        FinishMode::Reconcile
    }
}

/// Whether the imported commits are told apart and tagged.
pub fn classifies(options: &ParallelImportOptions, imported: usize) -> (r: bool)
    ensures
        r == (options.incremental && imported > 0),
{
    options.incremental && imported > 0
}

/// The first `n` recorded files that are gone from the working copy.
pub open spec fn gone(recorded: Seq<Seq<char>>, exists_on_disk: Seq<bool>, n: int) -> Seq<Seq<char>>
    decreases n,
{
    if n <= 0 {
        seq![]
    } else if exists_on_disk[n - 1] {
        gone(recorded, exists_on_disk, n - 1)
    } else {
        gone(recorded, exists_on_disk, n - 1).push(recorded[n - 1])
    }
}

/// The recorded files that are gone from the working copy.
pub fn orphaned_files(recorded: &Vec<String>, exists_on_disk: &Vec<bool>) -> (r: Vec<String>)
    requires
        recorded@.len() == exists_on_disk@.len(),
    ensures
        text::texts(r@) == gone(
            text::texts(recorded@),
            exists_on_disk@,
            recorded@.len() as int,
        ),
{
    let ghost all = text::texts(recorded@);
    let mut out: Vec<String> = Vec::new();
    let mut i: usize = 0;
    assert(text::texts(out@) =~= gone(all, exists_on_disk@, 0));
    while i < recorded.len()
        invariant
            i <= recorded@.len(),
            recorded@.len() == exists_on_disk@.len(),
            all == text::texts(recorded@),
            text::texts(out@) == gone(all, exists_on_disk@, i as int),
        decreases recorded@.len() - i,
    {
        assert(all[i as int] == recorded@[i as int]@);
        let ghost before = text::texts(out@);
        if !exists_on_disk[i] {
            out.push(recorded[i].as_str().to_owned());
            assert(text::texts(out@) =~= before.push(all[i as int]));
        }
        i += 1;
    }
    out
}

/// A path with forward slashes.
pub fn normalized_path(path: &str) -> (r: String)
    ensures
        r@ == text::replaced(path@, '\\', '/'),
{
    replace_char(path, '\\', '/')
}

/// The paths of the first `n` files that an import puts into the file index:
/// all but the deleted ones.
pub open spec fn indexed(fs: Seq<commit::ParsedFileView>, n: int) -> Seq<Seq<char>>
    decreases n,
{
    if n <= 0 {
        seq![]
    } else if fs[n - 1].operation == FileOperation::Deleted {
        indexed(fs, n - 1)
    } else {
        indexed(fs, n - 1).push(fs[n - 1].path)
    }
}

/// The paths that an import puts into the file index.
pub fn paths_to_index(files: &Vec<ParsedFile>) -> (r: Vec<String>)
    ensures
        text::texts(r@) == indexed(commit::file_views(files@), files@.len() as int),
{
    let ghost fs = commit::file_views(files@);
    let mut out: Vec<String> = Vec::new();
    let mut i: usize = 0;
    assert(text::texts(out@) =~= indexed(fs, 0));
    while i < files.len()
        invariant
            i <= files@.len(),
            fs == commit::file_views(files@),
            text::texts(out@) == indexed(fs, i as int),
        decreases files@.len() - i,
    {
        assert(fs[i as int] == files@[i as int]@);
        let ghost before = text::texts(out@);
        if files[i].operation != FileOperation::Deleted {
            out.push(files[i].path.as_str().to_owned());
            assert(text::texts(out@) =~= before.push(fs[i as int].path));
        }
        i += 1;
    }
    out
}

/// Whether the progress of a long run is told before its commit `idx`.
pub fn reports_progress(total: usize, idx: usize) -> (r: bool)
    ensures
        r == (total > 100 && idx % 100 == 0),
{
    total > 100 && idx % 100 == 0
}

/// Only an incremental import leaves a commit out as its own, and only one
/// that was pushed from the view it imports to, in a state that view has been
/// in; every other commit is taken up.
pub proof fn only_own_pushes_are_left_out(p: ParsedCommit, o: ParallelImportOptions)
    ensures
        ({
            let own = o.incremental && (message::opt_push_trailer(p.push_trailer) matches Some(t)
                && t.view == o.target_view@ && o.known_states@.contains(t.state));
            let a = next_action_of(p, o, WriteEvent::Start);
            &&& a == WriteAction::Done(CommitOutcome::SelfPushSkipped) <==> own
            &&& !own ==> a == (if o.incremental {
                WriteAction::TrySquashInsert
            } else {
                WriteAction::FindBinding
            })
        }),
{
}

/// A commit that is written is counted as what it is, and one that is known
/// or restored is never written again.
pub proof fn written_commits_are_counted_as_they_are(
    p: ParsedCommit,
    o: ParallelImportOptions,
    s: WriteStatsView,
    files: nat,
)
    ensures
        next_action_of(p, o, WriteEvent::BindingFound) !is Write,
        next_action_of(p, o, WriteEvent::Written) matches WriteAction::Done(done) && ({
            let c = counted(s, done, files);
            &&& c.merge_commits == s.merge_commits + (if p.is_merge {
                1nat
            } else {
                0nat
            })
            &&& c.empty_commits == s.empty_commits + (if !p.is_merge && p.is_empty {
                1nat
            } else {
                0nat
            })
            &&& c.changes_written == s.changes_written + (if !p.is_merge && !p.is_empty {
                1nat
            } else {
                0nat
            })
            &&& c.files_processed == s.files_processed + files
            &&& c.resurrected_exact == s.resurrected_exact
        }),
        write_route_of(true, p.is_merge, p.is_empty) == WriteRoute::Reuse,
        p.is_merge ==> write_route_of(false, p.is_merge, p.is_empty)
            == WriteRoute::MergeResolution,
{
}

/// The file index gets the paths that are there after the commit, and what
/// is cleaned up are the recorded files that are gone.
pub proof fn indexed_paths_are_there(
    fs: Seq<commit::ParsedFileView>,
    n: int,
    path: Seq<char>,
)
    requires
        0 <= n <= fs.len(),
    ensures
        indexed(fs, n).contains(path) <==> exists|i: int|
            0 <= i < n && (#[trigger] fs[i]).path == path && fs[i].operation
                != FileOperation::Deleted,
    decreases n,
{
    let all = indexed(fs, n);
    if n > 0 {
        let head = indexed(fs, n - 1);
        indexed_paths_are_there(fs, n - 1, path);
        if all.contains(path) {
            let j = choose|j: int| 0 <= j < all.len() && all[j] == path;
            if j < head.len() {
                assert(head[j] == path);
                assert(head.contains(path));
            } else {
                assert(fs[n - 1].path == path);
            }
        }
        if head.contains(path) {
            let j = choose|j: int| 0 <= j < head.len() && head[j] == path;
            assert(all[j] == path);
        }
        if fs[n - 1].path == path && fs[n - 1].operation != FileOperation::Deleted {
            assert(all[head.len() as int] == path);
        }
    } else {
        assert(all.len() == 0);
    }
}

/// A recorded file is cleaned up exactly when it is gone.
pub proof fn only_gone_files_are_cleaned_up(
    recorded: Seq<Seq<char>>,
    there: Seq<bool>,
    n: int,
    path: Seq<char>,
)
    requires
        0 <= n <= recorded.len(),
        recorded.len() == there.len(),
    ensures
        gone(recorded, there, n).contains(path) <==> exists|i: int|
            0 <= i < n && #[trigger] recorded[i] == path && !there[i],
    decreases n,
{
    let all = gone(recorded, there, n);
    if n > 0 {
        let head = gone(recorded, there, n - 1);
        only_gone_files_are_cleaned_up(recorded, there, n - 1, path);
        if all.contains(path) {
            let j = choose|j: int| 0 <= j < all.len() && all[j] == path;
            if j < head.len() {
                assert(head[j] == path);
                assert(head.contains(path));
            } else {
                assert(recorded[n - 1] == path);
            }
        }
        if head.contains(path) {
            let j = choose|j: int| 0 <= j < head.len() && head[j] == path;
            assert(all[j] == path);
        }
        if recorded[n - 1] == path && !there[n - 1] {
            assert(all[head.len() as int] == path);
        }
    } else {
        assert(all.len() == 0);
    }
}

} // verus!
