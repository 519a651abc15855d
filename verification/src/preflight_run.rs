//! The run before an import: the history of a branch put in order and held
//! against its objects, and every commit verified before anything is written.
use crate::claims;
use crate::claims::{
    are_named, check_claims, checks_worktree, judge_worktree_path, validate_claimed_change_roots,
    verify_claimed_change_closure, verify_claimed_state, worktree_check, ClaimCheck, ClaimProof,
    ClaimedRoot, ProspectiveImportPlan, VerifiedImportCommit, WorktreeCheck,
};
use crate::commit;
use crate::commit::ParsedCommit;
use crate::error::{git_error, CliError};
use crate::history;
use crate::history::{
    observes, verify_commit_closure_objects_with_shallow, ClosureObservation, GitClosureBoundary,
};
use crate::import;
use crate::import::{among, drop_imported, restore_order, ParallelImporter};
use crate::oid;
use crate::oid::{git_object_id_for_sha, same_oid, GitObjectId};
use crate::paths;
use crate::push::GitHashAlgorithm;
use crate::sequence;
use crate::sequence::{
    detect_deepened_history, nodes_in_order, sequence_commits_deterministically, CommitNode,
};
use crate::text;
use crate::text::{clone_texts, join, reversed};
use crate::tree;
use crate::tree::{
    import_expected_tree_oid, repository_entries_from_git_tree, validate_import_tree_capabilities,
    PathVerdict, ProspectiveProjectTree, RepositoryEntry, TreeEntry,
};
use vstd::prelude::*;

verus! {

/// How far a preflight has come: what it waits for.
#[derive(Clone, Copy, Debug, PartialEq, Eq, Structural)]
pub enum PreflightStage {
    /// The collected history.
    History,
    /// Its boundaries.
    Boundaries,
    /// What its objects hold.
    Objects,
    /// The current tree of the target view.
    Current,
    /// The tree of the commit at hand.
    Trees,
    /// The parsed commits.
    Parsing,
    /// The state that the commit at hand starts from.
    Applying,
    /// The tree that the applied commit at hand projects, and its Git tree.
    Projecting,
    /// The state that the commit at hand claims.
    State,
    /// The closure that the commit at hand claims.
    Closure,
    /// The branch that is checked out.
    Head,
    /// The changed path at hand in the working tree.
    Worktree,
    /// Nothing: the plan is ready.
    Ready,
    /// Nothing: there is no plan.
    Failed,
}

/// What is to be done next.
#[derive(Debug)]
pub enum PreflightAction {
    /// Collect the history of the branch.
    CollectHistory,
    /// Find out where the history ends.
    DetectBoundaries,
    /// Warn of the boundaries, and read what is behind these commits.
    ReadObjects { warning: Option<String>, order: Vec<String> },
    /// Project the current tree of the target view.
    ProjectCurrent,
    /// Read the tree of this commit.
    ReadTree { oid: String },
    /// Parse these commits.
    ParseCommits { order: Vec<String> },
    /// Read the tree of the parent of the commit at hand, where its state is
    /// not known, and judge the commit's paths.
    ApplyCommit { missing: Option<String> },
    /// Project the prospective state, and read the Git tree of the commit at
    /// hand.
    ProjectCommit,
    /// Project the state that the commit at hand claims, and load the changes
    /// that it names.
    VerifyState,
    /// Project the closure of the changes that the commit at hand names.
    VerifyClosure { changes: Vec<String> },
    /// Find out which branch is checked out.
    ReadHead,
    /// Look at this path of the working tree, in this way.
    ReadPath { path: String, check: WorktreeCheck },
    /// The plan is ready.
    Finish,
    /// There is no plan.
    Fail { error: CliError },
    /// The run does not wait for this.
    OutOfTurn,
}

/// What became of a commit's claim.
#[derive(Clone, Copy, Debug, PartialEq, Eq, Structural)]
pub enum ClaimVerdict {
    /// It claims nothing.
    Unclaimed,
    /// It was projected, and agrees with the commit's tree.
    Verified,
    /// There is no store to hold it against.
    Unverifiable,
}

/// A preflight that is under way.
#[derive(Debug)]
pub struct PreflightRun<'a> {
    pub importer: &'a ParallelImporter,
    pub branch: String,
    /// Whether there is a store to hold claims against.
    pub has_source: bool,
    /// The hash algorithm of the repository.
    pub algorithm: GitHashAlgorithm,
    pub stage: PreflightStage,
    pub boundaries: Vec<GitClosureBoundary>,
    /// The collected history.
    pub nodes: Vec<CommitNode>,
    /// The ids of the commits, in order.
    pub order: Vec<String>,
    /// The number of the commit or path at hand.
    pub next: usize,
    /// The commits that are still to be verified, the next one last.
    pub pending: Vec<ParsedCommit>,
    /// The state that the applied commits leave.
    pub project: ProspectiveProjectTree,
    /// The tree that the commit at hand must project.
    pub expected: Option<GitObjectId>,
    /// The tree that the files of the commit at hand make up.
    pub root: Option<GitObjectId>,
    pub verified: Vec<VerifiedImportCommit>,
    /// What became of the claims of the verified commits.
    pub verdicts: Vec<ClaimVerdict>,
    /// The trees that the files of the verified commits make up.
    pub roots: Vec<GitObjectId>,
    /// The paths that the commits touch.
    pub paths: Vec<String>,
}

/// The names of a list of boundaries.
pub open spec fn boundary_names(bs: Seq<GitClosureBoundary>) -> Seq<Seq<char>> {
    bs.map_values(|b: GitClosureBoundary| history::boundary_name(b))
}

/// What is told of a commit whose files do not make up its tree.
pub open spec fn unequal_text(sha: Seq<char>, why: Seq<char>) -> Seq<char> {
    "commit "@ + sha
        + " failed prospective equivalence against the Git tree minus declared exclusions: "@ + why
}

/// The warning of a history that ends early.
pub open spec fn boundary_warning(branch: Seq<char>, bs: Seq<GitClosureBoundary>) -> Seq<char> {
    "Git closure boundary for branch '"@ + branch + "': "@ + text::joined(boundary_names(bs), ", "@)
}

fn warn_of(branch: &str, boundaries: &Vec<GitClosureBoundary>) -> (r: Option<String>)
    ensures
        text::opt_text(r) == (if boundaries@.len() == 0 {
            None
        } else {
            Some(boundary_warning(branch@, boundaries@))
        }),
{
    if boundaries.len() == 0 {
        return None;
    }
    let ghost want = boundary_names(boundaries@);
    let mut names: Vec<String> = Vec::new();
    let mut i: usize = 0;
    assert(text::texts(names@) =~= want.take(0));
    while i < boundaries.len()
        invariant
            i <= boundaries@.len(),
            want == boundary_names(boundaries@),
            text::texts(names@) == want.take(i as int),
        decreases boundaries@.len() - i,
    {
        let ghost before = text::texts(names@);
        let name: String = boundaries[i].label().to_owned();
        let ghost nv = name@;
        names.push(name);
        assert(text::texts(names@) =~= before.push(nv));
        assert(text::texts(names@) =~= want.take(i as int + 1));
        i += 1;
    }
    assert(want.take(i as int) =~= want);
    let mut m: String = "Git closure boundary for branch '".to_owned();
    m.append(branch);
    m.append("': ");
    m.append(&join(&names, ", "));
    Some(m)
}

/// Whether a verdict is the one on a commit's claim.
pub open spec fn verdict_fits(run: PreflightRun, p: ParsedCommit, v: ClaimVerdict) -> bool {
    match run.claim(p) {
        Ok(claims::ClaimView::NoClaim) => v == ClaimVerdict::Unclaimed,
        Ok(claims::ClaimView::Unverified) => v == ClaimVerdict::Unverifiable,
        Ok(_) => v == ClaimVerdict::Verified,
        Err(_) => false,
    }
}

/// Whether the files of every verified commit make up its expected tree.
pub open spec fn roots_fit(run: PreflightRun) -> bool {
    &&& run.verified@.len() == run.roots@.len()
    &&& forall|k: int|
        0 <= k < run.verified@.len() ==> (#[trigger] run.verified@[k]).expected_tree_oid@
            == run.roots@[k]@
}

/// Whether two runs are of the same branch.
pub open spec fn same_branch(a: PreflightRun, b: PreflightRun) -> bool {
    &&& a.importer == b.importer
    &&& a.branch == b.branch
    &&& a.has_source == b.has_source
    &&& a.algorithm == b.algorithm
}

/// Whether a run has yet to learn the boundaries of its history.
pub open spec fn looks_for_boundaries(stage: PreflightStage) -> bool {
    stage == PreflightStage::History || stage == PreflightStage::Boundaries
}

/// What every step keeps: the branch, the boundaries once they are known, and
/// the commits once they are parsed.
pub open spec fn continues(a: PreflightRun, b: PreflightRun) -> bool {
    &&& same_branch(a, b)
    &&& !looks_for_boundaries(a.stage) ==> b.boundaries == a.boundaries && !looks_for_boundaries(
        b.stage,
    )
    &&& has_commits(a.stage) ==> has_commits(b.stage) && b.order == a.order && planned(
        b.verified@,
        b.pending@,
    ) == planned(a.verified@, a.pending@)
}

/// Whether a run has its parsed commits.
pub open spec fn has_commits(stage: PreflightStage) -> bool {
    match stage {
        PreflightStage::History
        | PreflightStage::Boundaries
        | PreflightStage::Objects
        | PreflightStage::Current
        | PreflightStage::Trees
        | PreflightStage::Parsing => false,
        _ => true,
    }
}

/// Whether only the stage changed from `a` to `b`.
pub open spec fn moved(a: PreflightRun, b: PreflightRun, stage: PreflightStage) -> bool {
    b == PreflightRun { stage, ..a }
}

/// Whether the run ended without a plan, with the Git error `m`, and is
/// otherwise as it was.
pub open spec fn refused_with(
    a: PreflightRun,
    b: PreflightRun,
    r: PreflightAction,
    m: Seq<char>,
) -> bool {
    moved(a, b, PreflightStage::Failed) && (r matches PreflightAction::Fail { error }
        && error.is_git_error(m))
}

/// Whether the run `b` takes up the commit that is next, or looks at the
/// working tree where there is none left.
pub open spec fn takes_next(b: PreflightRun, r: PreflightAction) -> bool {
    if b.pending@.len() > 0 {
        b.stage == PreflightStage::Applying && (r matches PreflightAction::ApplyCommit { missing }
            && text::opt_text(missing) == tree::unknown_parent(
            b.project@.manifests,
            text::opt_text(b.pending@.last().parent_tree_oid),
        ))
    } else if b.verified@.len() > 0 {
        b.stage == PreflightStage::Head && r is ReadHead
    } else {
        b.stage == PreflightStage::Ready && r is Finish
    }
}

/// Whether an object id is the one of the commit at hand's expected tree.
pub open spec fn is_expected(o: Option<GitObjectId>, id: Seq<u8>, a: GitHashAlgorithm) -> bool {
    o matches Some(x) && x@ == (oid::ObjectIdView { algorithm: a, bytes: id })
}

/// Whether the run `b` has accepted the commit at hand of the run `a`, with
/// this verdict, or refused the id of its tree.
pub open spec fn accepts(a: PreflightRun, b: PreflightRun, r: PreflightAction, v: ClaimVerdict) -> bool {
    let p = a.pending@.last();
    if oid::refused(a.algorithm, p.tree_oid@) {
        moved(a, b, PreflightStage::Failed) && (r matches PreflightAction::Fail { error }
            && oid::tells_refusal(error, a.algorithm, p.tree_oid@))
    } else {
        &&& b == PreflightRun {
            stage: b.stage,
            verified: b.verified,
            verdicts: b.verdicts,
            roots: b.roots,
            pending: b.pending,
            expected: None,
            root: None,
            ..a
        }
        &&& b.verified@.len() == a.verified@.len() + 1
        &&& b.verified@.drop_last() == a.verified@
        &&& b.verified@.last().parsed == p
        &&& b.verified@.last().expected_tree_oid == a.expected->0
        &&& b.verified@.last().raw_tree_oid@ == (oid::ObjectIdView {
            algorithm: a.algorithm,
            bytes: oid::read_oid(p.tree_oid@),
        })
        &&& b.verdicts@ == a.verdicts@.push(v)
        &&& b.roots@ == a.roots@.push(a.root->0)
        &&& b.pending@ == a.pending@.drop_last()
        &&& takes_next(b, r)
    }
}

/// Whether the run `at` is `a` with the expected tree `id` of its commit at
/// hand, and the tree `root` that its files make up.
pub open spec fn holds_tree(
    a: PreflightRun,
    at: PreflightRun,
    id: Seq<u8>,
    root: GitObjectId,
) -> bool {
    &&& at == PreflightRun {
        expected: at.expected,
        root: Some(root),
        project: at.project,
        ..a
    }
    &&& is_expected(at.expected, id, a.algorithm)
    &&& at.project@ == (tree::ProjectView {
        manifests: a.project@.manifests.insert(
            a.pending@.last().tree_oid@,
            a.project@.entries,
        ),
        ..a.project@
    })
}

/// The commits of a run, verified and not, in their order.
pub open spec fn planned(
    verified: Seq<VerifiedImportCommit>,
    pending: Seq<ParsedCommit>,
) -> Seq<ParsedCommit> {
    verified.map_values(|v: VerifiedImportCommit| v.parsed) + pending.reverse()
}

/// Whether the state is kept as that of a commit's tree.
pub open spec fn stands_for(project: tree::ProjectView, p: ParsedCommit) -> bool {
    project.manifests.contains_key(p.tree_oid@) && project.manifests[p.tree_oid@]
        == project.entries
}

/// The entries of the parent's tree that a commit starts from, where they
/// are needed and were read.
pub open spec fn parent_listing(
    a: PreflightRun,
    read: Option<Vec<TreeEntry>>,
) -> Result<Option<Seq<tree::EntryView>>, Seq<char>> {
    let parent = text::opt_text(a.pending@.last().parent_tree_oid);
    match (tree::unknown_parent(a.project@.manifests, parent), read) {
        (Some(_), Some(entries)) => match tree::tree_entries(entries@, ""@, a.algorithm) {
            Ok(es) => Ok(Some(es)),
            Err(m) => Err(m),
        },
        _ => Ok(None),
    }
}

/// Whether the run `b` follows from a look at the claims of the commit at
/// hand of the run `at`.
pub open spec fn judged_on(at: PreflightRun, b: PreflightRun, r: PreflightAction) -> bool {
    match at.claim(at.pending@.last()) {
        Err(m) => refused_with(at, b, r, m),
        Ok(claims::ClaimView::NoClaim) => accepts(at, b, r, ClaimVerdict::Unclaimed),
        Ok(claims::ClaimView::Unverified) => accepts(at, b, r, ClaimVerdict::Unverifiable),
        Ok(claims::ClaimView::State) => moved(at, b, PreflightStage::State) && r is VerifyState,
        Ok(claims::ClaimView::Closure(cs)) => moved(at, b, PreflightStage::Closure) && (
        r matches PreflightAction::VerifyClosure { changes } && text::texts(changes@) == cs),
    }
}

/// Whether the run `b` reads its next path, or is ready where there is none
/// left.
pub open spec fn reads_path(b: PreflightRun, from: int, r: PreflightAction) -> bool {
    if from < b.paths@.len() {
        b.next == from && b.stage == PreflightStage::Worktree && (
        r matches PreflightAction::ReadPath { path, check } && path@ == b.paths@[from]@ && check
            == claims::worktree_check_of(tree::entry_at(b.project@.entries, path@)))
    } else {
        b.stage == PreflightStage::Ready && r is Finish
    }
}

impl<'a> PreflightRun<'a> {
    /// What a commit claims, under the options of the import.
    pub open spec fn claim(&self, p: ParsedCommit) -> Result<claims::ClaimView, Seq<char>> {
        claims::claim_of(p, self.branch@, self.importer.options.known_states@, self.has_source)
    }

    /// Whether every verified commit has the verdict on its claim, and what
    /// is waited for fits what is at hand.
    pub open spec fn wf(&self) -> bool {
        &&& self.verified@.len() == self.verdicts@.len()
        &&& roots_fit(*self)
        &&& self.project.wf()
        &&& import::rises(planned(self.verified@, self.pending@), text::texts(self.order@))
        &&& import::are_among(planned(self.verified@, self.pending@), text::texts(self.order@))
        &&& match self.stage {
            PreflightStage::State | PreflightStage::Closure => stands_for(
                self.project@,
                self.pending@.last(),
            ),
            PreflightStage::Applying
            | PreflightStage::Head
            | PreflightStage::Worktree
            | PreflightStage::Ready => self.verified@.len() > 0 ==> stands_for(
                self.project@,
                self.verified@.last().parsed,
            ),
            _ => true,
        }
        &&& self.expected is Some ==> (self.root matches Some(x) && x@ == self.expected->0@)
        &&& match self.stage {
            PreflightStage::History
            | PreflightStage::Boundaries
            | PreflightStage::Objects
            | PreflightStage::Current
            | PreflightStage::Trees
            | PreflightStage::Parsing => self.verified@.len() == 0 && self.pending@.len() == 0
                && self.expected is None && self.root is None,
            _ => true,
        }
        &&& forall|k: int|
            0 <= k < self.verified@.len() ==> verdict_fits(
                *self,
                (#[trigger] self.verified@[k]).parsed,
                self.verdicts@[k],
            )
        &&& match self.stage {
            PreflightStage::Boundaries => sequence::distinct_commits(
                sequence::node_views(self.nodes@),
            ),
            PreflightStage::Objects => {
                let cs = sequence::node_views(self.nodes@);
                sequence::distinct_commits(cs) && sequence::bridge_order(cs).len() == cs.len()
                    && text::texts(self.order@) == sequence::bridge_order(cs)
            },
            PreflightStage::Trees => self.next < self.order.len(),
            PreflightStage::Applying => self.pending@.len() > 0 && self.expected is None,
            PreflightStage::Projecting => self.pending@.len() > 0,
            PreflightStage::State => self.pending@.len() > 0 && self.expected is Some
                && self.claim(self.pending@.last()) == Ok::<claims::ClaimView, Seq<char>>(
                claims::ClaimView::State,
            ),
            PreflightStage::Closure => self.pending@.len() > 0 && self.expected is Some && (
            self.claim(self.pending@.last()) matches Ok(c) && c is Closure),
            PreflightStage::Worktree => self.next < self.paths.len() && self.pending@.len() == 0,
            PreflightStage::Head | PreflightStage::Ready => self.pending@.len() == 0,
            _ => true,
        }
    }

    /// Start the preflight of a branch.
    pub fn begin(
        importer: &'a ParallelImporter,
        branch: String,
        has_source: bool,
        algorithm: GitHashAlgorithm,
    ) -> (r: (PreflightRun<'a>, PreflightAction))
        ensures
            r.0.wf(),
            r.0.importer == importer,
            r.0.branch == branch,
            r.0.has_source == has_source,
            r.0.algorithm == algorithm,
            r.0.stage == PreflightStage::History,
            r.0.boundaries@.len() == 0,
            r.0.project@ == tree::started(None),
            r.0.pending@.len() == 0,
            r.0.verified@.len() == 0,
            r.1 is CollectHistory,
    {
        let run = PreflightRun {
            importer,
            branch,
            has_source,
            algorithm,
            stage: PreflightStage::History,
            boundaries: Vec::new(),
            nodes: Vec::new(),
            order: Vec::new(),
            next: 0,
            pending: Vec::new(),
            project: ProspectiveProjectTree::new(None),
            expected: None,
            root: None,
            verified: Vec::new(),
            verdicts: Vec::new(),
            roots: Vec::new(),
            paths: Vec::new(),
        };
        (run, PreflightAction::CollectHistory)
    }

    fn fail(&mut self, error: CliError) -> (r: PreflightAction)
        requires
            old(self).wf(),
        ensures
            final(self).wf(),
            *final(self) == (PreflightRun { stage: PreflightStage::Failed, ..*old(self) }),
            r == (PreflightAction::Fail { error }),
    {
        let ghost before = *self;
        self.stage = PreflightStage::Failed;
        assert forall|k: int| 0 <= k < self.verified@.len() implies verdict_fits(
            *self,
            (#[trigger] self.verified@[k]).parsed,
            self.verdicts@[k],
        ) by {
            assert(verdict_fits(before, before.verified@[k].parsed, before.verdicts@[k]));
        }
        PreflightAction::Fail { error }
    }

    /// What was to be done outside failed: there is no plan.
    pub fn failed(&mut self, error: CliError) -> (r: PreflightAction)
        requires
            old(self).wf(),
        ensures
            final(self).wf(),
            continues(*old(self), *final(self)),
            if old(self).stage == PreflightStage::Failed || old(self).stage
                == PreflightStage::Ready {
                *final(self) == *old(self) && r is OutOfTurn
            } else {
                *final(self) == (PreflightRun { stage: PreflightStage::Failed, ..*old(self) })
                    && r == (PreflightAction::Fail { error })
            },
    {
        if self.stage == PreflightStage::Failed || self.stage == PreflightStage::Ready {
            return PreflightAction::OutOfTurn;
        }
        self.fail(error)
    }

    /// The history was collected, no commit twice.
    pub fn history_collected(&mut self, nodes: Vec<CommitNode>) -> (r: PreflightAction)
        requires
            old(self).wf(),
            sequence::distinct_commits(sequence::node_views(nodes@)),
        ensures
            final(self).wf(),
            continues(*old(self), *final(self)),
            if old(self).stage != PreflightStage::History {
                *final(self) == *old(self) && r is OutOfTurn
            } else {
                *final(self) == (PreflightRun {
                    stage: PreflightStage::Boundaries,
                    nodes,
                    ..*old(self)
                }) && r is DetectBoundaries
            },
    {
        if self.stage != PreflightStage::History {
            return PreflightAction::OutOfTurn;
        }
        let ghost before = *self;
        self.nodes = nodes;
        self.stage = PreflightStage::Boundaries;
        proof {
            lemma_verdicts_stay(before, *self);
        }
        PreflightAction::DetectBoundaries
    }

    /// The boundaries of the history are known: its commits are put in
    /// order.
    pub fn boundaries_detected(&mut self, boundaries: Vec<GitClosureBoundary>) -> (r:
        PreflightAction)
        requires
            old(self).wf(),
        ensures
            final(self).wf(),
            continues(*old(self), *final(self)),
            ({
                let cs = sequence::node_views(old(self).nodes@);
                if old(self).stage != PreflightStage::Boundaries {
                    *final(self) == *old(self) && r is OutOfTurn
                } else if sequence::bridge_order(cs).len() == cs.len() {
                    &&& *final(self) == PreflightRun {
                        stage: PreflightStage::Objects,
                        boundaries,
                        order: final(self).order,
                        ..*old(self)
                    }
                    &&& text::texts(final(self).order@) == sequence::bridge_order(cs)
                    &&& r matches PreflightAction::ReadObjects { warning, order }
                        && text::texts(order@) == sequence::bridge_order(cs) && text::opt_text(
                        warning,
                    ) == (if boundaries@.len() == 0 {
                        None
                    } else {
                        Some(boundary_warning(old(self).branch@, boundaries@))
                    })
                } else {
                    refused_with(*old(self), *final(self), r,
                        sequence::unordered_text(sequence::bridge_order(cs).len(), cs.len()),
                    )
                }
            }),
    {
        if self.stage != PreflightStage::Boundaries {
            return PreflightAction::OutOfTurn;
        }
        let ghost before = *self;
        let warning = warn_of(&self.branch, &boundaries);
        match sequence_commits_deterministically(&self.nodes) {
            Ok((order, _ties)) => {
                let shown = clone_texts(&order);
                self.boundaries = boundaries;
                self.order = order;
                self.stage = PreflightStage::Objects;
                proof {
                    lemma_verdicts_stay(before, *self);
                }
                PreflightAction::ReadObjects { warning, order: shown }
            },
            Err(e) => self.fail(e),
        }
    }

    /// What is behind the commits was read, for each of them in their order,
    /// and which of them are declared shallow. The history must be complete, and not
    /// deepened below what is imported; what is imported is left out.
    pub fn objects_read(&mut self, objects: &Vec<ClosureObservation>, shallow: &Vec<String>) -> (r:
        PreflightAction)
        requires
            old(self).wf(),
        ensures
            final(self).wf(),
            continues(*old(self), *final(self)),
            ({
                let cs = sequence::node_views(old(self).nodes@);
                let order = sequence::bridge_order(cs);
                let imported = text::texts(old(self).importer.options.imported_shas@);
                let ordered = sequence::nodes_named(cs, order);
                let ds = sequence::deepened(ordered, imported, ordered.len() as int);
                if old(self).stage != PreflightStage::Objects || history::observed_oids(objects@)
                    != order {
                    *final(self) == *old(self) && r is OutOfTurn
                } else {
                    match history::first_gap(objects@, text::texts(shallow@)) {
                        Some(m) => refused_with(*old(self), *final(self), r, m),
                        None => if imported.len() > 0 && ds.len() > 0 {
                            refused_with(*old(self), *final(self), r, sequence::deepened_text(ds))
                        } else {
                            &&& r is ProjectCurrent
                            &&& *final(self) == PreflightRun {
                                stage: PreflightStage::Current,
                                order: final(self).order,
                                ..*old(self)
                            }
                            &&& text::texts(final(self).order@) == import::not_imported(
                                order,
                                imported,
                            )
                        },
                    }
                }
            }),
    {
        if self.stage != PreflightStage::Objects || !observes(objects, &self.order) {
            return PreflightAction::OutOfTurn;
        }
        let ghost before = *self;
        let ghost cs = sequence::node_views(self.nodes@);
        if let Err(e) = verify_commit_closure_objects_with_shallow(objects, shallow) {
            return self.fail(e);
        }
        let imported: &Vec<String> = &self.importer.options.imported_shas;
        assert(text::texts(imported@).len() == imported@.len());
        if imported.len() > 0 {
            proof {
                sequence::order_is_complete(cs);
                assert forall|k: int| 0 <= k < self.order@.len() implies sequence::collected(
                    cs,
                    (#[trigger] self.order@[k])@,
                ) by {
                    assert(text::texts(self.order@)[k] == self.order@[k]@);
                    assert(sequence::bridge_order(cs).contains(self.order@[k]@));
                }
            }
            let ordered = nodes_in_order(&self.nodes, &self.order);
            if let Err(e) = detect_deepened_history(&ordered, imported) {
                return self.fail(e);
            }
        }
        self.order = drop_imported(&self.order, imported);
        self.stage = PreflightStage::Current;
        proof {
            lemma_verdicts_stay(before, *self);
        }
        PreflightAction::ProjectCurrent
    }

    /// The current tree of the target view is known, with its entries, where
    /// the view exists. Without new commits the plan is ready, and empty.
    pub fn current_projected(&mut self, current: Option<(String, Vec<RepositoryEntry>)>) -> (r:
        PreflightAction)
        requires
            old(self).wf(),
        ensures
            final(self).wf(),
            continues(*old(self), *final(self)),
            if old(self).stage != PreflightStage::Current {
                *final(self) == *old(self) && r is OutOfTurn
            } else if old(self).order@.len() == 0 {
                moved(*old(self), *final(self), PreflightStage::Ready) && r is Finish
            } else {
                &&& *final(self) == PreflightRun {
                    stage: PreflightStage::Trees,
                    next: 0,
                    project: final(self).project,
                    ..*old(self)
                }
                &&& final(self).project@ == tree::started(current)
                &&& r matches PreflightAction::ReadTree { oid } && oid@ == old(self).order@[0]@
            },
    {
        if self.stage != PreflightStage::Current {
            return PreflightAction::OutOfTurn;
        }
        if self.order.len() == 0 {
            self.stage = PreflightStage::Ready;
            return PreflightAction::Finish;
        }
        self.next = 0;
        self.project = ProspectiveProjectTree::new(current);
        self.stage = PreflightStage::Trees;
        PreflightAction::ReadTree { oid: self.order[0].clone() }
    }

    /// The tree of the commit at hand was read: it must hold nothing that an
    /// import cannot preserve.
    pub fn tree_read(&mut self, entries: &Vec<TreeEntry>) -> (r: PreflightAction)
        requires
            old(self).wf(),
        ensures
            final(self).wf(),
            continues(*old(self), *final(self)),
            if old(self).stage != PreflightStage::Trees {
                *final(self) == *old(self) && r is OutOfTurn
            } else {
                match tree::first_unsupported(entries@, ""@) {
                    Some(m) => refused_with(*old(self), *final(self), r, m),
                    None => if old(self).next + 1 < old(self).order@.len() {
                        &&& *final(self) == PreflightRun {
                            next: (old(self).next + 1) as usize,
                            ..*old(self)
                        }
                        &&& r matches PreflightAction::ReadTree { oid } && oid@ == old(
                            self,
                        ).order@[old(self).next + 1]@
                    } else {
                        &&& *final(self) == PreflightRun {
                            stage: PreflightStage::Parsing,
                            next: (old(self).next + 1) as usize,
                            ..*old(self)
                        }
                        &&& r matches PreflightAction::ParseCommits { order } && text::texts(order@)
                            == text::texts(old(self).order@)
                    },
                }
            },
    {
        if self.stage != PreflightStage::Trees {
            return PreflightAction::OutOfTurn;
        }
        let ghost before = *self;
        if let Err(e) = validate_import_tree_capabilities(entries, "") {
            return self.fail(e);
        }
        self.next = self.next + 1;
        if self.next < self.order.len() {
            proof {
                lemma_verdicts_stay(before, *self);
            }
            return PreflightAction::ReadTree { oid: self.order[self.next].clone() };
        }
        self.stage = PreflightStage::Parsing;
        proof {
            lemma_verdicts_stay(before, *self);
        }
        PreflightAction::ParseCommits { order: clone_texts(&self.order) }
    }

    /// The commits were parsed, in whatever order, but for those that cannot
    /// be read: they are verified in theirs.
    pub fn commits_parsed(&mut self, parsed: Vec<ParsedCommit>) -> (r: PreflightAction)
        requires
            old(self).wf(),
        ensures
            final(self).wf(),
            continues(*old(self), *final(self)),
            if old(self).stage != PreflightStage::Parsing || !import::are_among(
                parsed@,
                text::texts(old(self).order@),
            ) {
                *final(self) == *old(self) && r is OutOfTurn
            } else {
                &&& final(self).pending@ == import::in_order(
                    parsed@,
                    text::texts(old(self).order@),
                ).reverse()
                &&& *final(self) == PreflightRun {
                    stage: final(self).stage,
                    pending: final(self).pending,
                    ..*old(self)
                }
                &&& takes_next(*final(self), r)
            },
    {
        if self.stage != PreflightStage::Parsing || !among(&parsed, &self.order) {
            return PreflightAction::OutOfTurn;
        }
        let ghost before = *self;
        let ghost ids = text::texts(self.order@);
        let ghost all = parsed@;
        self.pending = reversed(restore_order(&self.order, parsed));
        proof {
            lemma_verdicts_stay(before, *self);
            import::restored_commits_follow_the_order(all, ids);
            assert(planned(self.verified@, self.pending@) =~= import::in_order(all, ids));
        }
        self.take_next()
    }

    fn take_next(&mut self) -> (r: PreflightAction)
        requires
            old(self).verified@.len() == old(self).verdicts@.len(),
            roots_fit(*old(self)),
            old(self).expected is None,
            old(self).project.wf(),
            import::rises(
                planned(old(self).verified@, old(self).pending@),
                text::texts(old(self).order@),
            ),
            import::are_among(
                planned(old(self).verified@, old(self).pending@),
                text::texts(old(self).order@),
            ),
            old(self).verified@.len() > 0 ==> stands_for(
                old(self).project@,
                old(self).verified@.last().parsed,
            ),
            forall|k: int|
                0 <= k < old(self).verified@.len() ==> verdict_fits(
                    *old(self),
                    (#[trigger] old(self).verified@[k]).parsed,
                    old(self).verdicts@[k],
                ),
        ensures
            final(self).wf(),
            *final(self) == (PreflightRun { stage: final(self).stage, ..*old(self) }),
            takes_next(*final(self), r),
    {
        let ghost before = *self;
        let n: usize = self.pending.len();
        let action = if n > 0 {
            let missing = self.project.missing_tree(&self.pending[n - 1]);
            self.stage = PreflightStage::Applying;
            PreflightAction::ApplyCommit { missing }
        } else if self.verified.len() > 0 {
            self.stage = PreflightStage::Head;
            PreflightAction::ReadHead
        } else {
            self.stage = PreflightStage::Ready;
            PreflightAction::Finish
        };
        proof {
            lemma_verdicts_stay(before, *self);
        }
        action
    }

    /// The commit at hand.
    pub fn at_hand(&self) -> (r: Option<&ParsedCommit>)
        ensures
            match r {
                Some(p) => self.pending@.len() > 0 && *p == self.pending@.last(),
                None => self.pending@.len() == 0,
            },
    {
        if self.pending.len() == 0 {
            None
        } else {
            Some(&self.pending[self.pending.len() - 1])
        }
    }

    /// Accept the commit at hand.
    fn accept(&mut self, verdict: ClaimVerdict) -> (r: PreflightAction)
        requires
            old(self).wf(),
            old(self).pending@.len() > 0,
            old(self).expected is Some,
            stands_for(old(self).project@, old(self).pending@.last()),
            verdict_fits(*old(self), old(self).pending@.last(), verdict),
        ensures
            final(self).wf(),
            continues(*old(self), *final(self)),
            accepts(*old(self), *final(self), r, verdict),
    {
        let ghost before = *self;
        let raw = match self.at_hand() {
            Some(p) => git_object_id_for_sha(self.algorithm, &p.tree_oid),
            None => Err(git_error(String::new())),
        };
        let raw_tree_oid = match raw {
            Ok(id) => id,
            Err(e) => {
                return self.fail(e);
            },
        };
        let expected = self.expected.take();
        let root = self.root.take();
        let popped = self.pending.pop();
        if let (Some(parsed), Some(expected_tree_oid), Some(root)) = (popped, expected, root) {
            self.verified.push(VerifiedImportCommit { parsed, expected_tree_oid, raw_tree_oid });
            self.verdicts.push(verdict);
            self.roots.push(root);
            assert(self.verified@.drop_last() =~= before.verified@);
            assert(self.pending@ =~= before.pending@.drop_last());
            proof {
                lemma_one_more_verdict(before, *self, verdict);
                assert(planned(self.verified@, self.pending@) =~= planned(
                    before.verified@,
                    before.pending@,
                ));
                assert forall|k: int| 0 <= k < self.verified@.len() implies (
                #[trigger] self.verified@[k]).expected_tree_oid@ == self.roots@[k]@ by {
                    if k < before.verified@.len() {
                        assert(before.verified@[k].expected_tree_oid@ == before.roots@[k]@);
                        assert(self.verified@[k] == before.verified@[k]);
                    }
                }
            }
        }
        self.take_next()
    }

    /// What the commit at hand starts from is known: `read` holds the tree of
    /// its parent where that was asked for, and `verdicts` what the policy
    /// says of its paths, one for each file. The commit is applied.
    pub fn parent_state_read(
        &mut self,
        read: &Option<Vec<TreeEntry>>,
        verdicts: &Vec<PathVerdict>,
    ) -> (r: PreflightAction)
        requires
            old(self).wf(),
            old(self).stage == PreflightStage::Applying ==> tree::gitlinks_fit(
                old(self).pending@.last(),
            ),
        ensures
            final(self).wf(),
            continues(*old(self), *final(self)),
            ({
                let p = old(self).pending@.last();
                if old(self).stage != PreflightStage::Applying || verdicts@.len()
                    != p.files@.len() {
                    *final(self) == *old(self) && r is OutOfTurn
                } else {
                    match parent_listing(*old(self), *read) {
                        Err(m) => refused_with(*old(self), *final(self), r, m),
                        Ok(listing) => match tree::applied(
                            old(self).project@.manifests,
                            text::opt_text(p.parent_tree_oid),
                            listing,
                            commit::file_views(p.files@),
                            verdicts@,
                            p.git_sha@,
                        ) {
                            Err(m) => refused_with(*old(self), *final(self), r, m),
                            Ok(entries) => {
                                &&& r is ProjectCommit
                                &&& *final(self) == PreflightRun {
                                    stage: PreflightStage::Projecting,
                                    project: final(self).project,
                                    ..*old(self)
                                }
                                &&& final(self).project@ == tree::ProjectView {
                                    entries,
                                    ..old(self).project@
                                }
                            },
                        },
                    }
                }
            }),
    {
        if self.stage != PreflightStage::Applying {
            return PreflightAction::OutOfTurn;
        }
        let n: usize = self.pending.len();
        if verdicts.len() != self.pending[n - 1].files.len() {
            return PreflightAction::OutOfTurn;
        }
        let ghost before = *self;
        let missing = self.project.missing_tree(&self.pending[n - 1]);
        let listing: Option<Vec<RepositoryEntry>> = match (missing, read) {
            (Some(_), Some(entries)) => {
                match repository_entries_from_git_tree(entries, "", self.algorithm) {
                    Ok(es) => Some(es),
                    Err(e) => {
                        return self.fail(e);
                    },
                }
            },
            _ => None,
        };
        match self.project.apply_commit(&self.pending[n - 1], listing, verdicts) {
            Ok(_) => {
                self.stage = PreflightStage::Projecting;
                proof {
                    lemma_verdicts_stay(before, *self);
                }
                PreflightAction::ProjectCommit
            },
            Err(e) => self.fail(e),
        }
    }

    /// The commit at hand was applied. `entries` is its Git tree, of which the
    /// expected tree is what is not excluded. `root` is the tree that the
    /// prospective state projects, and must be that one; `difference` says how
    /// it differs where it does. The state is kept as that of the commit's
    /// tree, and its claims are looked at.
    pub fn commit_applied(
        &mut self,
        entries: &Vec<TreeEntry>,
        root: GitObjectId,
        difference: &str,
    ) -> (r: PreflightAction)
        requires
            old(self).wf(),
        ensures
            final(self).wf(),
            continues(*old(self), *final(self)),
            ({
                let p = old(self).pending@.last();
                let a = old(self).algorithm;
                if old(self).stage != PreflightStage::Projecting {
                    *final(self) == *old(self) && r is OutOfTurn
                } else {
                    match tree::expected_tree(entries@, a) {
                        Err(f) => moved(*old(self), *final(self), PreflightStage::Failed) && (
                        r matches PreflightAction::Fail { error } && tree::tells_failure(
                            error,
                            f,
                            a,
                        )),
                        Ok(id) => if root@ != (oid::ObjectIdView { algorithm: a, bytes: id }) {
                            refused_with(
                                *old(self),
                                *final(self),
                                r,
                                unequal_text(p.git_sha@, difference@),
                            )
                        } else {
                            exists|at: PreflightRun| #[trigger]
                                holds_tree(*old(self), at, id, root) && judged_on(
                                at,
                                *final(self),
                                r,
                            )
                        },
                    }
                }
            }),
    {
        if self.stage != PreflightStage::Projecting {
            return PreflightAction::OutOfTurn;
        }
        let ghost before = *self;
        let expected = match import_expected_tree_oid(entries, self.algorithm) {
            Ok(id) => id,
            Err(e) => {
                return self.fail(e);
            },
        };
        if !same_oid(&root, &expected) {
            let mut m: String = "commit ".to_owned();
            if let Some(p) = self.at_hand() {
                m.append(&p.git_sha);
            }
            m.append(
                " failed prospective equivalence against the Git tree minus declared exclusions: ",
            );
            m.append(difference);
            return self.fail(git_error(m));
        }
        let checked = match self.at_hand() {
            Some(p) => check_claims(
                p,
                &self.branch,
                &self.importer.options.known_states,
                self.has_source,
            ),
            None => Err(git_error(String::new())),
        };
        self.expected = Some(expected);
        self.root = Some(root);
        let n: usize = self.pending.len();
        self.project.keep(&self.pending[n - 1].tree_oid);
        let ghost at = *self;
        proof {
            lemma_verdicts_stay(before, *self);
            assert(holds_tree(before, at, expected@.bytes, root));
        }
        match checked {
            Err(e) => self.fail(e),
            Ok(ClaimCheck::NoClaim) => self.accept(ClaimVerdict::Unclaimed),
            Ok(ClaimCheck::Unverified) => self.accept(ClaimVerdict::Unverifiable),
            Ok(ClaimCheck::State) => {
                let ghost mid = *self;
                self.stage = PreflightStage::State;
                proof {
                    lemma_verdicts_stay(mid, *self);
                }
                PreflightAction::VerifyState
            },
            Ok(ClaimCheck::Closure { changes }) => {
                let ghost mid = *self;
                self.stage = PreflightStage::Closure;
                proof {
                    lemma_verdicts_stay(mid, *self);
                }
                PreflightAction::VerifyClosure { changes }
            },
        }
    }

    /// The claimed state was projected, and the changes that the trailer of
    /// the commit at hand names were loaded, each in turn.
    pub fn state_projected(&mut self, projection: &ClaimProof, roots: &Vec<ClaimedRoot>) -> (r:
        PreflightAction)
        requires
            old(self).wf(),
        ensures
            final(self).wf(),
            continues(*old(self), *final(self)),
            ({
                let sha = old(self).pending@.last().git_sha@;
                if old(self).stage != PreflightStage::State || claims::root_names(roots@)
                    != text::texts(old(self).pending@.last().push_trailer->0.changes@) {
                    *final(self) == *old(self) && r is OutOfTurn
                } else if !old(self).has_source {
                    refused_with(*old(self), *final(self), r,
                        claims::of_commit(
                            sha,
                            " claims Atomic state but no Atomic repository exists"@,
                        ),
                    )
                } else {
                    match claims::proof_failure(sha, "state"@, *projection) {
                        Some(m) => refused_with(*old(self), *final(self), r, m),
                        None => match claims::first_root_failure(sha, roots@, 0) {
                            Some(m) => refused_with(*old(self), *final(self), r, m),
                            None => accepts(*old(self), *final(self), r, ClaimVerdict::Verified),
                        },
                    }
                }
            }),
    {
        if self.stage != PreflightStage::State {
            return PreflightAction::OutOfTurn;
        }
        let loaded: bool = match &self.pending[self.pending.len() - 1].push_trailer {
            Some(t) => are_named(roots, &t.changes),
            None => false,
        };
        if !loaded {
            return PreflightAction::OutOfTurn;
        }
        let judged = match self.at_hand() {
            Some(p) => match verify_claimed_state(&p.git_sha, self.has_source, projection) {
                Ok(_) => validate_claimed_change_roots(&p.git_sha, self.has_source, roots),
                Err(e) => Err(e),
            },
            None => Err(git_error(String::new())),
        };
        match judged {
            Ok(_) => self.accept(ClaimVerdict::Verified),
            Err(e) => self.fail(e),
        }
    }

    /// The claimed closure was projected, with the changes that the commit at
    /// hand names, each in turn.
    pub fn closure_projected(
        &mut self,
        changes: &Option<Vec<ClaimedRoot>>,
        projection: &ClaimProof,
    ) -> (r: PreflightAction)
        requires
            old(self).wf(),
        ensures
            final(self).wf(),
            continues(*old(self), *final(self)),
            ({
                let sha = old(self).pending@.last().git_sha@;
                if old(self).stage != PreflightStage::Closure || !(changes matches Some(cs)
                    && old(self).claim(old(self).pending@.last()) == Ok::<
                    claims::ClaimView,
                    Seq<char>,
                >(claims::ClaimView::Closure(claims::root_names(cs@)))) {
                    *final(self) == *old(self) && r is OutOfTurn
                } else {
                    match claims::closure_failure(
                        sha,
                        old(self).has_source,
                        *changes,
                        *projection,
                    ) {
                        Some(m) => refused_with(*old(self), *final(self), r, m),
                        None => accepts(*old(self), *final(self), r, ClaimVerdict::Verified),
                    }
                }
            }),
    {
        if self.stage != PreflightStage::Closure {
            return PreflightAction::OutOfTurn;
        }
        let claimed = check_claims(
            &self.pending[self.pending.len() - 1],
            &self.branch,
            &self.importer.options.known_states,
            self.has_source,
        );
        let loaded: bool = match (changes, &claimed) {
            (Some(cs), Ok(ClaimCheck::Closure { changes: names })) => are_named(cs, names),
            _ => false,
        };
        if !loaded {
            return PreflightAction::OutOfTurn;
        }
        let judged = match self.at_hand() {
            Some(p) => verify_claimed_change_closure(
                &p.git_sha,
                self.has_source,
                changes,
                projection,
            ),
            None => Err(git_error(String::new())),
        };
        match judged {
            Ok(_) => self.accept(ClaimVerdict::Verified),
            Err(e) => self.fail(e),
        }
    }

    /// The branch that is checked out was read, and whether there is a
    /// working tree. Only the working tree of this branch is looked at, and
    /// of it only what the commits touch.
    pub fn head_read(&mut self, head: Option<&str>, has_worktree: bool) -> (r: PreflightAction)
        requires
            old(self).wf(),
        ensures
            final(self).wf(),
            continues(*old(self), *final(self)),
            if old(self).stage != PreflightStage::Head {
                *final(self) == *old(self) && r is OutOfTurn
            } else if text::opt_str(head) != Some(old(self).branch@) {
                moved(*old(self), *final(self), PreflightStage::Ready) && r is Finish
            } else if !has_worktree {
                refused_with(*old(self), *final(self), r, "checked-out import branch has no worktree"@)
            } else {
                &&& *final(self) == PreflightRun {
                    stage: final(self).stage,
                    paths: final(self).paths,
                    next: 0,
                    ..*old(self)
                }
                &&& paths::texts_rising(text::texts(final(self).paths@))
                &&& text::texts(final(self).paths@).to_set() == claims::touched_by_all(
                    old(self).verified@,
                    old(self).verified@.len() as int,
                )
                &&& reads_path(*final(self), 0, r)
            },
    {
        if self.stage != PreflightStage::Head {
            return PreflightAction::OutOfTurn;
        }
        let ghost before = *self;
        if !checks_worktree(head, &self.branch) {
            self.stage = PreflightStage::Ready;
            proof {
                lemma_verdicts_stay(before, *self);
            }
            return PreflightAction::Finish;
        }
        if !has_worktree {
            return self.fail(git_error("checked-out import branch has no worktree".to_owned()));
        }
        self.paths = claims::changed_paths_of(&self.verified);
        self.next = 0;
        proof {
            lemma_verdicts_stay(before, *self);
        }
        self.read_path()
    }

    fn read_path(&mut self) -> (r: PreflightAction)
        requires
            old(self).pending@.len() == 0,
            old(self).verified@.len() == old(self).verdicts@.len(),
            roots_fit(*old(self)),
            old(self).project.wf(),
            import::rises(
                planned(old(self).verified@, old(self).pending@),
                text::texts(old(self).order@),
            ),
            import::are_among(
                planned(old(self).verified@, old(self).pending@),
                text::texts(old(self).order@),
            ),
            old(self).verified@.len() > 0 ==> stands_for(
                old(self).project@,
                old(self).verified@.last().parsed,
            ),
            old(self).expected is Some ==> (old(self).root matches Some(x) && x@ == old(
                self,
            ).expected->0@),
            forall|k: int|
                0 <= k < old(self).verified@.len() ==> verdict_fits(
                    *old(self),
                    (#[trigger] old(self).verified@[k]).parsed,
                    old(self).verdicts@[k],
                ),
        ensures
            final(self).wf(),
            *final(self) == (PreflightRun { stage: final(self).stage, ..*old(self) }),
            reads_path(*final(self), old(self).next as int, r),
    {
        let ghost before = *self;
        if self.next < self.paths.len() {
            self.stage = PreflightStage::Worktree;
            proof {
                lemma_verdicts_stay(before, *self);
            }
            let path: String = self.paths[self.next].as_str().to_owned();
            let check = worktree_check(&self.project.entry(&path));
            return PreflightAction::ReadPath { path, check };
        }
        self.stage = PreflightStage::Ready;
        proof {
            lemma_verdicts_stay(before, *self);
        }
        PreflightAction::Finish
    }

    /// The path at hand of the working tree was looked at: `present` tells
    /// whether it is there, `cleaned` what it holds. It is held against what
    /// the last commit leaves there.
    pub fn path_read(&mut self, present: bool, cleaned: &Vec<u8>) -> (r: PreflightAction)
        requires
            old(self).wf(),
        ensures
            final(self).wf(),
            continues(*old(self), *final(self)),
            if old(self).stage != PreflightStage::Worktree {
                *final(self) == *old(self) && r is OutOfTurn
            } else {
                match claims::worktree_failure(
                    old(self).paths@[old(self).next as int]@,
                    tree::entry_at(
                        old(self).project@.entries,
                        old(self).paths@[old(self).next as int]@,
                    ),
                    present,
                    cleaned@,
                ) {
                    Some(m) => refused_with(*old(self), *final(self), r, m),
                    None => *final(self) == (PreflightRun {
                        stage: final(self).stage,
                        next: (old(self).next + 1) as usize,
                        ..*old(self)
                    }) && reads_path(*final(self), old(self).next + 1, r),
                }
            },
    {
        if self.stage != PreflightStage::Worktree {
            return PreflightAction::OutOfTurn;
        }
        let ghost before = *self;
        let entry = self.project.entry(&self.paths[self.next]);
        match judge_worktree_path(&self.paths[self.next], &entry, present, cleaned) {
            Ok(_) => {
                self.next = self.next + 1;
                proof {
                    lemma_verdicts_stay(before, *self);
                }
                self.read_path()
            },
            Err(e) => self.fail(e),
        }
    }

    /// The plan, once it is ready.
    pub fn into_plan(self) -> (r: Option<ProspectiveImportPlan>)
        ensures
            match r {
                Some(plan) => self.stage == PreflightStage::Ready && plan.commits == self.verified
                    && plan.boundaries == self.boundaries,
                None => self.stage != PreflightStage::Ready,
            },
    {
        if self.stage != PreflightStage::Ready {
            return None;
        }
        Some(ProspectiveImportPlan { commits: self.verified, boundaries: self.boundaries })
    }
}

proof fn lemma_verdicts_stay(a: PreflightRun, b: PreflightRun)
    requires
        same_branch(a, b),
        a.verified == b.verified,
        a.verdicts == b.verdicts,
        forall|k: int|
            0 <= k < a.verified@.len() ==> verdict_fits(
                a,
                (#[trigger] a.verified@[k]).parsed,
                a.verdicts@[k],
            ),
    ensures
        forall|k: int|
            0 <= k < b.verified@.len() ==> verdict_fits(
                b,
                (#[trigger] b.verified@[k]).parsed,
                b.verdicts@[k],
            ),
{
    assert forall|k: int| 0 <= k < b.verified@.len() implies verdict_fits(
        b,
        (#[trigger] b.verified@[k]).parsed,
        b.verdicts@[k],
    ) by {
        assert(verdict_fits(a, a.verified@[k].parsed, a.verdicts@[k]));
    }
}

proof fn lemma_one_more_verdict(a: PreflightRun, b: PreflightRun, v: ClaimVerdict)
    requires
        a.wf(),
        same_branch(a, b),
        b.verified@.len() == a.verified@.len() + 1,
        b.verified@.drop_last() == a.verified@,
        b.verdicts@ == a.verdicts@.push(v),
        verdict_fits(a, b.verified@.last().parsed, v),
    ensures
        forall|k: int|
            0 <= k < b.verified@.len() ==> verdict_fits(
                b,
                (#[trigger] b.verified@[k]).parsed,
                b.verdicts@[k],
            ),
{
    assert forall|k: int| 0 <= k < b.verified@.len() implies verdict_fits(
        b,
        (#[trigger] b.verified@[k]).parsed,
        b.verdicts@[k],
    ) by {
        if k < a.verified@.len() {
            assert(b.verified@[k] == b.verified@.drop_last()[k]);
            assert(verdict_fits(a, a.verified@[k].parsed, a.verdicts@[k]));
        }
    }
}

/// A plan holds no commit on its word: where there is a store, every commit
/// of a ready plan either claims nothing, or had its claim verified.
pub proof fn plans_hold_verified_commits(run: PreflightRun, k: int)
    requires
        run.wf(),
        run.stage == PreflightStage::Ready,
        run.has_source,
        0 <= k < run.verified@.len(),
    ensures
        ({
            let p = run.verified@[k].parsed;
            ||| run.verdicts@[k] == ClaimVerdict::Verified
            ||| run.verdicts@[k] == ClaimVerdict::Unclaimed && p.push_trailer is None
                && crate::squash::squash_originals(p) is None
        }),
{
    let p = run.verified@[k].parsed;
    assert(verdict_fits(run, p, run.verdicts@[k]));
    claims::claims_are_never_taken_on_their_word(
        p,
        run.branch@,
        run.importer.options.known_states@,
    );
}

/// A plan follows the order of the history: its commits are among the new
/// ones of the history, each once and behind those before it.
pub proof fn a_plan_follows_the_order(run: PreflightRun, i: int, j: int)
    requires
        run.wf(),
        0 <= i < j < run.verified@.len(),
    ensures
        text::texts(run.order@).contains(run.verified@[i].parsed.git_sha@),
        text::texts(run.order@).contains(run.verified@[j].parsed.git_sha@),
        import::place_in(text::texts(run.order@), run.verified@[i].parsed.git_sha@)
            < import::place_in(text::texts(run.order@), run.verified@[j].parsed.git_sha@),
{
    let all = planned(run.verified@, run.pending@);
    assert(all[i] == run.verified@[i].parsed);
    assert(all[j] == run.verified@[j].parsed);
}

/// The working tree is held against the last commit of the plan: the state
/// that its paths are compared with is the one kept for that commit's tree.
pub proof fn the_last_commit_decides_on_the_working_tree(run: PreflightRun)
    requires
        run.wf(),
        run.stage == PreflightStage::Worktree || run.stage == PreflightStage::Ready,
        run.verified@.len() > 0,
    ensures
        stands_for(run.project@, run.verified@.last().parsed),
{
}

/// The files of every commit of a plan make up its Git tree minus the
/// declared exclusions.
pub proof fn planned_commits_project_their_tree(run: PreflightRun, k: int)
    requires
        run.wf(),
        0 <= k < run.verified@.len(),
    ensures
        run.roots@[k]@ == run.verified@[k].expected_tree_oid@,
{
}

/// A plan carries the boundaries that were detected: no step after their
/// detection changes them.
pub proof fn a_plan_carries_its_boundaries(runs: Seq<PreflightRun>)
    requires
        runs.len() > 0,
        !looks_for_boundaries(runs[0].stage),
        forall|k: int| 0 <= k < runs.len() - 1 ==> continues(#[trigger] runs[k], runs[k + 1]),
    ensures
        runs.last().boundaries == runs[0].boundaries,
        !looks_for_boundaries(runs.last().stage),
    decreases runs.len(),
{
    if runs.len() > 1 {
        let earlier = runs.drop_last();
        assert forall|k: int| 0 <= k < earlier.len() - 1 implies continues(
            #[trigger] earlier[k],
            earlier[k + 1],
        ) by {
            assert(continues(runs[k], runs[k + 1]));
        }
        a_plan_carries_its_boundaries(earlier);
        let k = runs.len() - 2;
        assert(continues(runs[k], runs[k + 1]));
    }
}

} // verus!
