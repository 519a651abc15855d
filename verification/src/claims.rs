//! What a branch claims before it is imported, and whether the working tree
//! agrees with what its commits say.
use crate::commit;
use crate::commit::{ParsedCommit, ParsedFile};
use crate::error::{git_error, CliError};
use crate::history::GitClosureBoundary;
use crate::import;
use crate::import::self_push_state_known;
use crate::line_units::same_bytes;
use crate::message;
use crate::message::{parse_atomic_changes_trailer, parse_header_trailer, Merkle};
use crate::oid::GitObjectId;
use crate::paths;
use crate::paths::insert_text;
use crate::shadow::Mismatch;
use crate::squash;
use crate::text;
use crate::text::{join, same_text};
use crate::tree;
use crate::tree::{InodeKind, RepositoryEntry};
use vstd::prelude::*;

verus! {

/// What is to be verified of a commit's claims.
#[derive(Debug)]
pub enum ClaimCheck {
    /// It claims nothing.
    NoClaim,
    /// The state that it carries, and the changes that it names.
    State,
    /// The changes that it names, as a closure.
    Closure { changes: Vec<String> },
    /// Its claims are noted, but there is nothing to hold them against.
    Unverified,
}

/// A `ClaimCheck` as a value.
#[verifier::ext_equal]
pub enum ClaimView {
    NoClaim,
    State,
    Closure(Seq<Seq<char>>),
    Unverified,
}

impl View for ClaimCheck {
    type V = ClaimView;

    open spec fn view(&self) -> ClaimView {
        match self {
            ClaimCheck::NoClaim => ClaimView::NoClaim,
            ClaimCheck::State => ClaimView::State,
            ClaimCheck::Closure { changes } => ClaimView::Closure(text::texts(changes@)),
            ClaimCheck::Unverified => ClaimView::Unverified,
        }
    }
}

/// `commit <sha>`, followed by what is said of it.
pub open spec fn of_commit(sha: Seq<char>, said: Seq<char>) -> Seq<char> {
    "commit "@ + sha + said
}

fn about(sha: &str, said: &str) -> (r: String)
    ensures
        r@ == of_commit(sha@, said@),
{
    let mut m: String = "commit ".to_owned();
    m.append(sha);
    m.append(said);
    m
}

fn error_about(sha: &str, said: &str) -> (r: CliError)
    ensures
        r.is_git_error(of_commit(sha@, said@)),
{
    git_error(about(sha, said))
}

/// Whether a message has the headers that every projection writes.
pub open spec fn has_projection_header(m: Seq<char>) -> bool {
    message::trailer_of(m, "Atomic-View"@) is Some && message::trailer_of(m, "Atomic-State"@)
        is Some
}

/// What is to be verified of a commit's claims, or why they are refused. The
/// trailers of a push must name a state that the view has been in. Changes
/// that are named without the headers of a projection are forged.
pub open spec fn claim_of(
    p: ParsedCommit,
    branch: Seq<char>,
    known: Seq<Merkle>,
    has_source: bool,
) -> Result<ClaimView, Seq<char>> {
    let m = message::full_text(p.metadata.message@, text::opt_text(p.metadata.description));
    match message::opt_push_trailer(p.push_trailer) {
        Some(t) => if import::state_known(t, branch, known) {
            Ok(ClaimView::State)
        } else {
            Err(
                of_commit(
                    p.git_sha@,
                    " carries an unverifiable Atomic-State/Atomic-View claim"@,
                ),
            )
        },
        None => match squash::named_changes(m) {
            None => Ok(ClaimView::NoClaim),
            Some(changes) => if !has_projection_header(m) {
                Err(
                    of_commit(
                        p.git_sha@,
                        " claims Atomic provenance with a bare Atomic-Changes header; no Atomic projection emits that shape and the claim is unverifiable \u{2014} refusing the forged claim"@,
                    ),
                )
            } else if has_source {
                Ok(ClaimView::Closure(changes))
            } else {
                Ok(ClaimView::Unverified)
            },
        },
    }
}

/// Tell what is to be verified of a commit's claims.
pub fn check_claims(parsed: &ParsedCommit, branch: &str, known: &Vec<Merkle>, has_source: bool) -> (r:
    Result<ClaimCheck, CliError>)
    ensures
        match claim_of(*parsed, branch@, known@, has_source) {
            Ok(v) => r matches Ok(c) && c@ == v,
            Err(m) => r matches Err(e) && e.is_git_error(m),
        },
{
    if let Some(t) = &parsed.push_trailer {
        return if self_push_state_known(t, branch, known) {
            Ok(ClaimCheck::State)
        } else {
            Err(
                error_about(
                    &parsed.git_sha,
                    " carries an unverifiable Atomic-State/Atomic-View claim",
                ),
            )
        };
    }
    let m = parsed.full_message();
    let changes: Vec<String> = match parse_atomic_changes_trailer(&m) {
        Some(v) => v,
        None => {
            return Ok(ClaimCheck::NoClaim);
        },
    };
    let header: bool = parse_header_trailer(&m, "Atomic-View").is_some() && parse_header_trailer(
        &m,
        "Atomic-State",
    ).is_some();
    if !header {
        Err(
            error_about(
                &parsed.git_sha,
                " claims Atomic provenance with a bare Atomic-Changes header; no Atomic projection emits that shape and the claim is unverifiable \u{2014} refusing the forged claim",
            ),
        )
    } else if has_source {
        Ok(ClaimCheck::Closure { changes })
    } else {
        Ok(ClaimCheck::Unverified)
    }
}

/// A commit with the shape of a claim is never imported on its word: unless
/// it claims nothing, either its claim is verified or there is no store to
/// hold it against.
pub proof fn claims_are_never_taken_on_their_word(
    p: ParsedCommit,
    branch: Seq<char>,
    known: Seq<Merkle>,
)
    ensures
        claim_of(p, branch, known, true) != Ok::<ClaimView, Seq<char>>(ClaimView::Unverified),
        claim_of(p, branch, known, true) == Ok::<ClaimView, Seq<char>>(ClaimView::NoClaim)
            ==> p.push_trailer is None && squash::squash_originals(p) is None,
{
}

/// How the projection of a claim came out: why it could not be made, or why
/// it is not equivalent to the commit's tree.
#[derive(Debug)]
pub struct ClaimProof {
    pub projection_error: Option<String>,
    pub equivalence_error: Option<String>,
}

/// Why a claim is refused, if it is. `what` says what is claimed.
pub open spec fn proof_failure(sha: Seq<char>, what: Seq<char>, p: ClaimProof) -> Option<Seq<char>> {
    match text::opt_text(p.projection_error) {
        Some(why) => Some(
            of_commit(sha, " carries an unverifiable Atomic "@ + what + ": "@ + why),
        ),
        None => match text::opt_text(p.equivalence_error) {
            Some(why) => Some(
                of_commit(sha, " carries a forged Atomic "@ + what + ": "@ + why),
            ),
            None => None,
        },
    }
}

fn judge_proof(sha: &str, what: &str, proof_of: &ClaimProof) -> (r: Result<(), CliError>)
    ensures
        match proof_failure(sha@, what@, *proof_of) {
            None => r is Ok,
            Some(m) => r matches Err(e) && e.is_git_error(m),
        },
{
    if let Some(why) = &proof_of.projection_error {
        let mut said: String = " carries an unverifiable Atomic ".to_owned();
        said.append(what);
        said.append(": ");
        said.append(why);
        return Err(error_about(sha, &said));
    }
    if let Some(why) = &proof_of.equivalence_error {
        let mut said: String = " carries a forged Atomic ".to_owned();
        said.append(what);
        said.append(": ");
        said.append(why);
        return Err(error_about(sha, &said));
    }
    Ok(())
}

/// Judge the state that a commit carries.
pub fn verify_claimed_state(sha: &str, has_source: bool, proof_of: &ClaimProof) -> (r: Result<
    (),
    CliError,
>)
    ensures
        !has_source ==> (r matches Err(e) && e.is_git_error(
            of_commit(sha@, " claims Atomic state but no Atomic repository exists"@),
        )),
        has_source ==> match proof_failure(sha@, "state"@, *proof_of) {
            None => r is Ok,
            Some(m) => r matches Err(e) && e.is_git_error(m),
        },
{
    if !has_source {
        return Err(error_about(sha, " claims Atomic state but no Atomic repository exists"));
    }
    judge_proof(sha, "state", proof_of)
}

/// A change that a commit names.
#[derive(Debug)]
pub struct ClaimedRoot {
    pub encoded: String,
    /// Whether the text is a hash.
    pub decoded: bool,
    /// Why the change cannot be loaded, where it cannot.
    pub load_error: Option<String>,
}

/// The texts of named changes.
pub open spec fn root_names(cs: Seq<ClaimedRoot>) -> Seq<Seq<char>> {
    cs.map_values(|c: ClaimedRoot| c.encoded@)
}

/// Tell whether the changes are those with these names, in order.
pub fn are_named(cs: &Vec<ClaimedRoot>, names: &Vec<String>) -> (r: bool)
    ensures
        r == (root_names(cs@) == text::texts(names@)),
{
    let ghost seen = root_names(cs@);
    let ghost want = text::texts(names@);
    assert(seen.len() == cs@.len() && want.len() == names@.len());
    if cs.len() != names.len() {
        return false;
    }
    let mut i: usize = 0;
    while i < cs.len()
        invariant
            i <= cs@.len() == names@.len(),
            seen == root_names(cs@),
            want == text::texts(names@),
            forall|k: int| 0 <= k < i ==> #[trigger] seen[k] == want[k],
        decreases cs@.len() - i,
    {
        assert(seen[i as int] == cs@[i as int].encoded@);
        assert(want[i as int] == names@[i as int]@);
        if !text::same_text(&cs[i].encoded, &names[i]) {
            return false;
        }
        i += 1;
    }
    assert(seen =~= want);
    true
}

/// Why a change that a commit names is refused, if it is.
pub open spec fn root_failure(sha: Seq<char>, c: ClaimedRoot) -> Option<Seq<char>> {
    if !c.decoded {
        Some(of_commit(sha, " carries invalid Atomic-Changes value '"@ + c.encoded@ + "'"@))
    } else {
        match text::opt_text(c.load_error) {
            Some(why) => Some(
                of_commit(
                    sha,
                    " references unavailable Atomic change "@ + c.encoded@ + ": "@ + why,
                ),
            ),
            None => None,
        }
    }
}

/// The first failure among the changes that a commit names, from `from` on.
pub open spec fn first_root_failure(sha: Seq<char>, cs: Seq<ClaimedRoot>, from: int) -> Option<
    Seq<char>,
>
    decreases cs.len() - from,
{
    if from < 0 || from >= cs.len() {
        None
    } else {
        match root_failure(sha, cs[from]) {
            Some(m) => Some(m),
            None => first_root_failure(sha, cs, from + 1),
        }
    }
}

/// Judge the changes that a pushed commit names.
pub fn validate_claimed_change_roots(sha: &str, has_source: bool, roots: &Vec<ClaimedRoot>) -> (r:
    Result<(), CliError>)
    ensures
        !has_source ==> (r matches Err(e) && e.is_git_error(
            of_commit(sha@, " claims Atomic changes but no Atomic repository exists"@),
        )),
        has_source ==> match first_root_failure(sha@, roots@, 0) {
            None => r is Ok,
            Some(m) => r matches Err(e) && e.is_git_error(m),
        },
{
    if !has_source {
        return Err(error_about(sha, " claims Atomic changes but no Atomic repository exists"));
    }
    let mut i: usize = 0;
    while i < roots.len()
        invariant
            i <= roots@.len(),
            has_source,
            first_root_failure(sha@, roots@, 0) == first_root_failure(sha@, roots@, i as int),
        decreases roots@.len() - i,
    {
        let c: &ClaimedRoot = &roots[i];
        if !c.decoded {
            let mut said: String = " carries invalid Atomic-Changes value '".to_owned();
            said.append(&c.encoded);
            said.append("'");
            return Err(error_about(sha, &said));
        }
        if let Some(why) = &c.load_error {
            let mut said: String = " references unavailable Atomic change ".to_owned();
            said.append(&c.encoded);
            said.append(": ");
            said.append(why);
            return Err(error_about(sha, &said));
        }
        i += 1;
    }
    Ok(())
}

/// The first of the named changes that is no hash, from `from` on.
pub open spec fn first_undecoded(cs: Seq<ClaimedRoot>, from: int) -> Option<Seq<char>>
    decreases cs.len() - from,
{
    if from < 0 || from >= cs.len() {
        None
    } else if !cs[from].decoded {
        Some(cs[from].encoded@)
    } else {
        first_undecoded(cs, from + 1)
    }
}

/// Why a claimed closure is refused, if it is.
pub open spec fn closure_failure(
    sha: Seq<char>,
    has_source: bool,
    changes: Option<Vec<ClaimedRoot>>,
    p: ClaimProof,
) -> Option<Seq<char>> {
    if !has_source {
        Some(of_commit(sha, " claims Atomic provenance but no Atomic repository exists"@))
    } else {
        match changes {
            None => Some(
                of_commit(sha, " claims Atomic state without an Atomic-Changes closure"@),
            ),
            Some(cs) => match first_undecoded(cs@, 0) {
                Some(encoded) => Some(
                    of_commit(sha, " carries invalid Atomic-Changes value '"@ + encoded + "'"@),
                ),
                None => proof_failure(sha, "change closure"@, p),
            },
        }
    }
}

/// Judge the closure of changes that a commit names.
pub fn verify_claimed_change_closure(
    sha: &str,
    has_source: bool,
    changes: &Option<Vec<ClaimedRoot>>,
    proof_of: &ClaimProof,
) -> (r: Result<(), CliError>)
    ensures
        match closure_failure(sha@, has_source, *changes, *proof_of) {
            None => r is Ok,
            Some(m) => r matches Err(e) && e.is_git_error(m),
        },
{
    if !has_source {
        return Err(error_about(sha, " claims Atomic provenance but no Atomic repository exists"));
    }
    let roots: &Vec<ClaimedRoot> = match changes {
        Some(v) => v,
        None => {
            return Err(
                error_about(sha, " claims Atomic state without an Atomic-Changes closure"),
            );
        },
    };
    let mut i: usize = 0;
    while i < roots.len()
        invariant
            i <= roots@.len(),
            has_source,
            *changes == Some(*roots),
            first_undecoded(roots@, 0) == first_undecoded(roots@, i as int),
        decreases roots@.len() - i,
    {
        if !roots[i].decoded {
            let mut said: String = " carries invalid Atomic-Changes value '".to_owned();
            said.append(&roots[i].encoded);
            said.append("'");
            return Err(error_about(sha, &said));
        }
        i += 1;
    }
    judge_proof(sha, "change closure", proof_of)
}

/// The paths that the first `n` files of a commit touch.
pub open spec fn touched(fs: Seq<commit::ParsedFileView>, n: int) -> Set<Seq<char>>
    decreases n,
{
    if n <= 0 {
        Set::empty()
    } else {
        let before = touched(fs, n - 1).insert(fs[n - 1].path);
        match fs[n - 1].old_path {
            Some(p) => before.insert(p),
            None => before,
        }
    }
}

/// A commit whose tree and claims are verified.
#[derive(Debug)]
pub struct VerifiedImportCommit {
    pub parsed: ParsedCommit,
    /// The tree that the change must project: the commit's, without what the
    /// import leaves out.
    pub expected_tree_oid: GitObjectId,
    /// The commit's tree.
    pub raw_tree_oid: GitObjectId,
}

/// The commits that are to be imported, in order, with the boundaries of the
/// history behind them.
#[derive(Debug)]
pub struct ProspectiveImportPlan {
    pub commits: Vec<VerifiedImportCommit>,
    pub boundaries: Vec<GitClosureBoundary>,
}

/// The paths that the first `n` commits touch.
pub open spec fn touched_by_all(cs: Seq<VerifiedImportCommit>, n: int) -> Set<Seq<char>>
    decreases n,
{
    if n <= 0 {
        Set::empty()
    } else {
        touched_by_all(cs, n - 1).union(
            touched(
                commit::file_views(cs[n - 1].parsed.files@),
                cs[n - 1].parsed.files@.len() as int,
            ),
        )
    }
}

fn add_touched(out: &mut Vec<String>, files: &Vec<ParsedFile>)
    requires
        paths::texts_rising(text::texts(old(out)@)),
    ensures
        paths::texts_rising(text::texts(final(out)@)),
        text::texts(final(out)@).to_set() == text::texts(old(out)@).to_set().union(
            touched(commit::file_views(files@), files@.len() as int),
        ),
{
    let ghost fs = commit::file_views(files@);
    let ghost base = text::texts(out@).to_set();
    let mut i: usize = 0;
    assert(base.union(touched(fs, 0)) =~= base);
    while i < files.len()
        invariant
            i <= files@.len(),
            fs == commit::file_views(files@),
            paths::texts_rising(text::texts(out@)),
            text::texts(out@).to_set() == base.union(touched(fs, i as int)),
        decreases files@.len() - i,
    {
        assert(fs[i as int] == files@[i as int]@);
        insert_text(out, &files[i].path);
        if let Some(old_path) = &files[i].old_path {
            insert_text(out, old_path);
        }
        assert(text::texts(out@).to_set() =~= base.union(touched(fs, i as int + 1)));
        i += 1;
    }
}

impl ProspectiveImportPlan {
    /// The tree that the last change must project.
    pub fn expected_git_tree(&self) -> (r: Option<&GitObjectId>)
        ensures
            match r {
                Some(t) => self.commits@.len() > 0 && *t == self.commits@.last().expected_tree_oid,
                None => self.commits@.len() == 0,
            },
    {
        if self.commits.len() == 0 {
            None
        } else {
            Some(&self.commits[self.commits.len() - 1].expected_tree_oid)
        }
    }

    /// The tree of the last commit.
    pub fn raw_git_tree(&self) -> (r: Option<&GitObjectId>)
        ensures
            match r {
                Some(t) => self.commits@.len() > 0 && *t == self.commits@.last().raw_tree_oid,
                None => self.commits@.len() == 0,
            },
    {
        if self.commits.len() == 0 {
            None
        } else {
            Some(&self.commits[self.commits.len() - 1].raw_tree_oid)
        }
    }

    /// The paths that the commits touch, each once, in text order.
    pub fn changed_paths(&self) -> (r: Vec<String>)
        ensures
            paths::texts_rising(text::texts(r@)),
            text::texts(r@).to_set() == touched_by_all(
                self.commits@,
                self.commits@.len() as int,
            ),
    {
        changed_paths_of(&self.commits)
    }
}

/// The paths that a list of commits touches, each once, in text order.
pub fn changed_paths_of(commits: &Vec<VerifiedImportCommit>) -> (r: Vec<String>)
    ensures
        paths::texts_rising(text::texts(r@)),
        text::texts(r@).to_set() == touched_by_all(commits@, commits@.len() as int),
{
    let mut out: Vec<String> = Vec::new();
    let mut i: usize = 0;
    assert(text::texts(out@).to_set() =~= touched_by_all(commits@, 0));
    while i < commits.len()
        invariant
            i <= commits@.len(),
            paths::texts_rising(text::texts(out@)),
            text::texts(out@).to_set() == touched_by_all(commits@, i as int),
        decreases commits@.len() - i,
    {
        add_touched(&mut out, &commits[i].parsed.files);
        i += 1;
    }
    out
}

/// Whether the working tree is held against the plan: only where the branch
/// is checked out.
pub fn checks_worktree(head: Option<&str>, branch: &str) -> (r: bool)
    ensures
        r == (match head {
            Some(h) => h@ == branch@,
            None => false,
        }),
{
    match head {
        Some(h) => same_text(h, branch),
        None => false,
    }
}

/// How a changed path of the working tree is held against the plan.
#[derive(Clone, Copy, Debug, PartialEq, Eq, Structural)]
pub enum WorktreeCheck {
    /// It must not be there.
    Absent,
    /// Its cleaned bytes must be those of the plan.
    Content,
    /// It is not looked at.
    Nothing,
}

/// How a changed path is held against the plan: only regular files that are
/// not excluded are read.
pub open spec fn worktree_check_of(e: Option<tree::EntryView>) -> WorktreeCheck {
    match e {
        None => WorktreeCheck::Absent,
        Some(e) => if e.excluded || e.kind != InodeKind::Regular {
            WorktreeCheck::Nothing
        } else {
            WorktreeCheck::Content
        },
    }
}

/// Decide how a changed path is held against the plan's entry for it.
pub fn worktree_check(entry: &Option<RepositoryEntry>) -> (r: WorktreeCheck)
    ensures
        r == worktree_check_of(tree::opt_entry(*entry)),
{
    match entry {
        None => WorktreeCheck::Absent,
        Some(e) => if e.excluded || e.kind != InodeKind::Regular {
            WorktreeCheck::Nothing
        } else {
            WorktreeCheck::Content
        },
    }
}

/// Why a changed path of the working tree is refused, if it is.
pub open spec fn worktree_failure(
    path: Seq<char>,
    e: Option<tree::EntryView>,
    present: bool,
    cleaned: Seq<u8>,
) -> Option<Seq<char>> {
    match worktree_check_of(e) {
        WorktreeCheck::Absent => if present {
            Some("deleted Git path '"@ + path + "' is still present in the worktree"@)
        } else {
            None
        },
        WorktreeCheck::Nothing => None,
        WorktreeCheck::Content => if cleaned != e->0.bytes {
            Some(
                "changed worktree path '"@ + path + "' does not match the verified Git tree"@,
            )
        } else {
            None
        },
    }
}

/// Hold a changed path of the working tree against the plan. `present` tells
/// whether it is there, `cleaned` what it holds.
pub fn judge_worktree_path(
    path: &str,
    entry: &Option<RepositoryEntry>,
    present: bool,
    cleaned: &Vec<u8>,
) -> (r: Result<(), CliError>)
    ensures
        match worktree_failure(path@, tree::opt_entry(*entry), present, cleaned@) {
            None => r is Ok,
            Some(m) => r matches Err(e) && e.is_git_error(m),
        },
{
    match worktree_check(entry) {
        WorktreeCheck::Nothing => Ok(()),
        WorktreeCheck::Absent => {
            if !present {
                return Ok(());
            }
            let mut m: String = "deleted Git path '".to_owned();
            m.append(path);
            m.append("' is still present in the worktree");
            Err(git_error(m))
        },
        WorktreeCheck::Content => match entry {
            Some(e) => {
                if same_bytes(cleaned, &e.bytes) {
                    return Ok(());
                }
                let mut m: String = "changed worktree path '".to_owned();
                m.append(path);
                m.append("' does not match the verified Git tree");
                Err(git_error(m))
            },
            None => Ok(()),
        },
    }
}

/// What is told of a difference.
pub open spec fn mismatch_text(m: Mismatch) -> Seq<char> {
    m.layer@ + "/"@ + m.kind@ + " "@ + (match m.path {
        Some(p) => p@,
        None => "<repository>"@,
    }) + ": expected "@ + m.expected@ + ", actual "@ + m.actual@
}

/// What is told of all differences.
pub open spec fn mismatches_text(context: Seq<char>, ms: Seq<Mismatch>) -> Seq<char> {
    context + " failed complete equivalence: "@ + text::joined(
        ms.map_values(|m: Mismatch| mismatch_text(m)),
        "; "@,
    )
}

/// The error that tells of all differences.
pub fn equivalence_error(context: &str, mismatches: &Vec<Mismatch>) -> (r: CliError)
    ensures
        r.is_git_error(mismatches_text(context@, mismatches@)),
{
    let ghost want = mismatches@.map_values(|m: Mismatch| mismatch_text(m));
    let mut parts: Vec<String> = Vec::new();
    let mut i: usize = 0;
    assert(text::texts(parts@) =~= want.take(0));
    while i < mismatches.len()
        invariant
            i <= mismatches@.len(),
            want == mismatches@.map_values(|m: Mismatch| mismatch_text(m)),
            text::texts(parts@) == want.take(i as int),
        decreases mismatches@.len() - i,
    {
        let x: &Mismatch = &mismatches[i];
        let mut t: String = x.layer.as_str().to_owned();
        t.append("/");
        t.append(&x.kind);
        t.append(" ");
        match &x.path {
            Some(p) => t.append(p),
            None => t.append("<repository>"),
        }
        t.append(": expected ");
        t.append(&x.expected);
        t.append(", actual ");
        t.append(&x.actual);
        let ghost tv = t@;
        assert(tv == want[i as int]);
        let ghost before = text::texts(parts@);
        parts.push(t);
        assert(text::texts(parts@) =~= before.push(tv));
        assert(text::texts(parts@) =~= want.take(i as int + 1));
        i += 1;
    }
    assert(want.take(i as int) =~= want);
    let mut m: String = context.to_owned();
    m.append(" failed complete equivalence: ");
    m.append(&join(&parts, "; "));
    git_error(m)
}

/// A closure is believed only where everything was proved: there is a source,
/// the changes are named and all of them are hashes, and neither projection
/// nor comparison failed.
pub proof fn only_proved_closures_pass(
    sha: Seq<char>,
    has_source: bool,
    changes: Option<Vec<ClaimedRoot>>,
    p: ClaimProof,
    i: int,
)
    requires
        closure_failure(sha, has_source, changes, p) is None,
    ensures
        has_source,
        changes is Some,
        0 <= i < changes->0@.len() ==> changes->0@[i].decoded,
        p.projection_error is None,
        p.equivalence_error is None,
{
    lemma_all_decoded(changes->0@, 0, i);
}

proof fn lemma_all_decoded(cs: Seq<ClaimedRoot>, from: int, i: int)
    requires
        first_undecoded(cs, from) is None,
        0 <= from <= cs.len(),
    ensures
        from <= i < cs.len() ==> cs[i].decoded,
    decreases cs.len() - from,
{
    if from < cs.len() {
        lemma_all_decoded(cs, from + 1, i);
    }
}

/// Named changes pass only where each is a hash of a change that can be
/// loaded.
pub proof fn only_loadable_changes_pass(sha: Seq<char>, cs: Seq<ClaimedRoot>, from: int, i: int)
    requires
        first_root_failure(sha, cs, from) is None,
        0 <= from <= i < cs.len(),
    ensures
        cs[i].decoded,
        cs[i].load_error is None,
    decreases i - from,
{
    if from < i {
        only_loadable_changes_pass(sha, cs, from + 1, i);
    }
}

/// Every path that a commit names is held against the working tree, the old
/// one of a rename too, and no other.
pub proof fn touched_paths_are_the_named_ones(
    fs: Seq<commit::ParsedFileView>,
    n: int,
    path: Seq<char>,
)
    requires
        0 <= n <= fs.len(),
    ensures
        touched(fs, n).contains(path) <==> exists|i: int|
            0 <= i < n && ((#[trigger] fs[i]).path == path || fs[i].old_path == Some(path)),
    decreases n,
{
    if n > 0 {
        touched_paths_are_the_named_ones(fs, n - 1, path);
        assert(fs[n - 1].path == path || fs[n - 1].path != path);
    }
}

/// A changed file of the working tree passes only where it is what the tree
/// says: its bytes where it is an ordinary file, absent where it is deleted.
pub proof fn only_matching_files_pass(
    path: Seq<char>,
    e: Option<tree::EntryView>,
    present: bool,
    cleaned: Seq<u8>,
)
    requires
        worktree_failure(path, e, present, cleaned) is None,
    ensures
        e is None ==> !present,
        e is Some && !e->0.excluded && e->0.kind == InodeKind::Regular ==> cleaned == e->0.bytes,
{
}

/// What cannot be proved is refused: a push that names an unknown state or
/// another view, and changes that are named without the headers of a
/// projection; and a commit that claims nothing is let through.
pub proof fn unprovable_claims_are_refused(
    p: ParsedCommit,
    branch: Seq<char>,
    known: Seq<Merkle>,
    has_source: bool,
)
    ensures
        ({
            let c = claim_of(p, branch, known, has_source);
            let m = message::full_text(p.metadata.message@, text::opt_text(p.metadata.description));
            let named = message::changes_in(text::lines_of(m));
            let headed = message::trailer_of(m, "Atomic-View"@) is Some && message::trailer_of(
                m,
                "Atomic-State"@,
            ) is Some;
            &&& message::opt_push_trailer(p.push_trailer) matches Some(t) ==> (c is Ok <==> t.view
                == branch && known.contains(t.state))
            &&& p.push_trailer is None ==> (c is Err <==> named.len() > 0 && !headed)
            &&& p.push_trailer is None && named.len() == 0 ==> c == Ok::<ClaimView, Seq<char>>(
                ClaimView::NoClaim,
            )
            &&& c matches Ok(ClaimView::Closure(cs)) ==> cs == named && has_source
        }),
{
}

} // verus!
