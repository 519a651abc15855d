//! The run of a push: in which order its gates are passed, and what it does
//! once they are.
use crate::error::{git_error, CliError};
use crate::parse;
use crate::parse::short_sha;
use crate::push;
use crate::push::{
    require_current_pack, ConflictGate, GitHashAlgorithm, HistoryEntry, HistoryPlan, LeasePlan,
    ProjectionAuthor, PublicationText, Push, PushStep, PushedCommit,
};
use crate::ref_mapping;
use crate::ref_mapping::{RefMapping, ViewScope};
use crate::shadow;
use crate::shadow::{
    marker_policy, stage_and_validate_tree, ConflictMarker, PublicationEvidence,
};
use crate::text;
use crate::transport;
use vstd::prelude::*;

verus! {

/// How far a push has come: what it waits for.
#[derive(Clone, Copy, Debug, PartialEq, Eq, Structural)]
pub enum PushStage {
    /// The answer of the provenance gate.
    Provenance,
    /// Whether the view has unresolved conflicts.
    Conflicts,
    /// Whether a published conflict pack is current.
    Pack,
    /// The workspace.
    Workspace,
    /// The lock of the shadow.
    Lock,
    /// A fresh observation of everything that was verified.
    Leases,
    /// The scope of the view.
    Scope,
    /// The history of the view and of the branch.
    History,
    /// The conflict markers and paths of the tree.
    Staging,
    /// The comparison of the tree with the current commit.
    Trees,
    /// The identity behind the commit.
    Identity,
    /// A last observation before the commit.
    BeforeCommit,
    /// The commit.
    Commit,
    /// The current branch.
    Branch,
    /// Whether the destination may be published to.
    Destination,
    /// A last observation before the push.
    BeforePush,
    /// The mapping of the view.
    Mapping,
    /// The ref at the remote, which was never observed.
    RemoteRef,
    /// The end of `git push`.
    Sending,
    /// The ref at the remote after the push.
    Confirmation,
    /// The record of the observation.
    Record,
    /// Nothing: the run is over.
    Done,
}

/// What is to be done next.
#[derive(Debug)]
pub enum PushAction {
    /// Hold the closure of the view against the provenance gate.
    EnforceProvenance,
    /// Find out whether the view has unresolved conflicts.
    CaptureConflicts,
    /// Look for a published conflict pack that is current.
    FindPack,
    /// Open the repository and enter its workspace.
    EnterWorkspace,
    /// Take the lock of the shadow.
    TakeLock,
    /// Observe anew what was verified.
    Reobserve,
    /// Read the scope of the view.
    ReadScope,
    /// Read the histories, with what the user is told first.
    ReadHistory { notice: Option<String> },
    /// Look for conflict markers and forbidden paths in the tree.
    StageTree,
    /// Compare the tree with the current commit.
    CompareTrees,
    /// Find out who is behind the commit.
    ResolveIdentity,
    /// Observe anew what was verified, and the current commit.
    Recheck,
    /// Create the commit.
    Commit { message: String },
    /// Read the current branch, with what the user is told first.
    ReadBranch { notice: String },
    /// Find out whether this ref may be published to.
    CheckDestination { destination: String },
    /// Observe anew what was verified, and the current commit with its tree.
    ObserveHead,
    /// Read the mapping of the view.
    ReadMapping,
    /// Observe this ref at the remote.
    ObserveRemote { destination: String },
    /// Run `git` with these arguments.
    RunGit { arguments: Vec<String> },
    /// Observe this ref at the remote after the push.
    ConfirmRemote { destination: String },
    /// Record that the remote holds this tip.
    RecordTip { tip: String },
    /// The run is over, with what the user is told.
    Finish { notice: Option<String> },
    /// The run failed.
    Fail { error: CliError },
    /// The run does not wait for this.
    OutOfTurn,
}

/// A push that is under way. It starts with a verified publication.
#[derive(Debug)]
pub struct PushRun {
    pub push: Push,
    pub stage: PushStage,
    /// What was verified.
    pub evidence: PublicationEvidence,
    /// The view of the workspace.
    pub view: String,
    /// The branch that the push is redirected to.
    pub target: Option<String>,
    /// The entries that are new since the last push, oldest first.
    pub entries: Vec<HistoryEntry>,
    /// The state behind the last entry of the history.
    pub latest_state: String,
    /// Whether that state is a Merkle value.
    pub state_decodes: bool,
    /// The message of the commit.
    pub message: String,
    /// Whether a commit was created.
    pub committed: bool,
    /// The current branch.
    pub branch: String,
    /// The ref that is pushed to.
    pub destination: String,
    /// The refspec that is pushed.
    pub refspec: String,
    /// Whether the push runs under a lease.
    pub leased: bool,
}

/// The place of a stage in the order of a run.
pub open spec fn rank(s: PushStage) -> int {
    match s {
        PushStage::Provenance => 0,
        PushStage::Conflicts => 1,
        PushStage::Pack => 2,
        PushStage::Workspace => 3,
        PushStage::Lock => 4,
        PushStage::Leases => 5,
        PushStage::Scope => 6,
        PushStage::History => 7,
        PushStage::Staging => 8,
        PushStage::Trees => 9,
        PushStage::Identity => 10,
        PushStage::BeforeCommit => 11,
        PushStage::Commit => 12,
        PushStage::Branch => 13,
        PushStage::Destination => 14,
        PushStage::BeforePush => 15,
        PushStage::Mapping => 16,
        PushStage::RemoteRef => 17,
        PushStage::Sending => 18,
        PushStage::Confirmation => 19,
        PushStage::Record => 20,
        PushStage::Done => 21,
    }
}

/// Whether a run can come from one stage to another in one step: to the next
/// one, past a pack that is not asked for, past a commit that has nothing to
/// hold, past a remote that was observed before, or to the end. A run that
/// must not push ends where others start to.
pub open spec fn may_follow(a: PushStage, b: PushStage, no_push: bool) -> bool {
    ||| b == PushStage::Done
    ||| rank(b) == rank(a) + 1 && !(a == PushStage::Commit && no_push)
    ||| a == PushStage::Conflicts && b == PushStage::Workspace
    ||| a == PushStage::Trees && b == PushStage::Branch && !no_push
    ||| a == PushStage::Mapping && b == PushStage::Sending
}

/// The stage of a run that asked for this.
pub open spec fn asked_at(r: PushAction) -> PushStage {
    match r {
        PushAction::EnforceProvenance => PushStage::Provenance,
        PushAction::CaptureConflicts => PushStage::Conflicts,
        PushAction::FindPack => PushStage::Pack,
        PushAction::EnterWorkspace => PushStage::Workspace,
        PushAction::TakeLock => PushStage::Lock,
        PushAction::Reobserve => PushStage::Leases,
        PushAction::ReadScope => PushStage::Scope,
        PushAction::ReadHistory { .. } => PushStage::History,
        PushAction::StageTree => PushStage::Staging,
        PushAction::CompareTrees => PushStage::Trees,
        PushAction::ResolveIdentity => PushStage::Identity,
        PushAction::Recheck => PushStage::BeforeCommit,
        PushAction::Commit { .. } => PushStage::Commit,
        PushAction::ReadBranch { .. } => PushStage::Branch,
        PushAction::CheckDestination { .. } => PushStage::Destination,
        PushAction::ObserveHead => PushStage::BeforePush,
        PushAction::ReadMapping => PushStage::Mapping,
        PushAction::ObserveRemote { .. } => PushStage::RemoteRef,
        PushAction::RunGit { .. } => PushStage::Sending,
        PushAction::ConfirmRemote { .. } => PushStage::Confirmation,
        PushAction::RecordTip { .. } => PushStage::Record,
        PushAction::Finish { .. } => PushStage::Done,
        PushAction::Fail { .. } => PushStage::Done,
        PushAction::OutOfTurn => PushStage::Done,
    }
}

/// Whether a run came from `a` to `b` by one event, or stayed as it was. Once
/// the current branch is asked for, the verified commit stays, and once the
/// destination is to be checked, so does the destination.
pub open spec fn stepped(a: PushRun, b: PushRun, r: PushAction) -> bool {
    &&& r is OutOfTurn ==> b == a
    &&& r !is OutOfTurn ==> {
        &&& b.push == a.push
        &&& may_follow(a.stage, b.stage, a.push.no_push)
        &&& b.stage == asked_at(r)
        &&& rank(PushStage::Branch) <= rank(a.stage) ==> b.evidence == a.evidence
        &&& rank(PushStage::Destination) <= rank(a.stage) ==> b.destination == a.destination
    }
}

/// Whether only the stage changed from `a` to `b`.
pub open spec fn moved(a: PushRun, b: PushRun, stage: PushStage) -> bool {
    b == PushRun { stage, ..a }
}

/// Whether the run ended with the Git error `m`, and is otherwise as it was.
pub open spec fn ended(a: PushRun, b: PushRun, r: PushAction, m: Seq<char>) -> bool {
    moved(a, b, PushStage::Done) && (r matches PushAction::Fail { error } && error.is_git_error(m))
}

/// What a commit message names of a verified publication: its view, state and
/// tree, under these keys of its manifest and its policy.
pub open spec fn publication_of(
    e: PublicationEvidence,
    manifest: String,
    policy: String,
    algorithm: GitHashAlgorithm,
) -> PublicationText {
    PublicationText {
        view: e.view,
        atomic_state: e.atomic_state,
        manifest,
        policy,
        algorithm,
        tree: e.git_tree,
    }
}

/// How the current commit is shown in a refusal.
pub open spec fn shown_head(head: Option<Seq<char>>) -> Seq<char> {
    match head {
        Some(h) => "Some("@ + h + ")"@,
        None => "None"@,
    }
}

/// Why a commit on a moved branch is refused.
pub open spec fn moved_before_commit(expected: Option<Seq<char>>, found: Option<Seq<char>>) -> Seq<
    char,
> {
    "Git HEAD lease changed before commit: expected "@ + shown_head(expected) + ", found "@
        + shown_head(found)
}

/// Why a push that the remote does not hold is refused.
pub open spec fn unconfirmed_push(
    remote: Seq<char>,
    destination: Seq<char>,
    shown: Seq<char>,
    pushed: Seq<char>,
) -> Seq<char> {
    "remote '"@ + remote + "/"@ + destination + "' holds "@ + shown + " but the pushed commit is "@
        + pushed + "; the remote update is NOT recorded as observed"@
}

/// The arguments of `git` that push the verified commit of a run.
pub open spec fn sends_verified(run: PushRun, lease: Option<Seq<char>>) -> Seq<Seq<char>> {
    let refspec = run.evidence.git_head->0@ + ":"@ + run.destination@;
    match lease {
        Some(l) => seq!["push"@, run.push.remote@, l, refspec],
        None => seq!["push"@, run.push.remote@, refspec],
    }
}

/// Whether the run comes to push the verified commit, under this lease.
pub open spec fn sends(a: PushRun, b: PushRun, r: PushAction, lease: Option<Seq<char>>) -> bool {
    &&& b == PushRun { stage: PushStage::Sending, leased: lease is Some, ..a }
    &&& r matches PushAction::RunGit { arguments } && text::texts(arguments@) == sends_verified(
        a,
        lease,
    )
}

fn show_head(head: Option<&str>) -> (r: String)
    ensures
        r@ == shown_head(text::opt_str(head)),
{
    match head {
        Some(h) => {
            let mut m: String = "Some(".to_owned();
            m.append(h);
            m.append(")");
            m
        },
        None => "None".to_owned(),
    }
}

fn as_text(o: &Option<String>) -> (r: Option<&str>)
    ensures
        text::opt_str(r) == text::opt_text(*o),
{
    match o {
        Some(s) => Some(s.as_str()),
        None => None,
    }
}

/// The entries from `start` on.
fn entries_from(entries: Vec<HistoryEntry>, start: usize) -> (r: Vec<HistoryEntry>)
    requires
        start <= entries@.len(),
    ensures
        r@ == entries@.skip(start as int),
{
    let mut all = entries;
    let tail = all.split_off(start);
    assert(tail@ =~= entries@.skip(start as int));
    tail
}

impl PushRun {
    /// Whether the staged tree is one that can be pushed, and what the run is
    /// about to push is what was verified.
    pub open spec fn wf(&self) -> bool {
        &&& rank(PushStage::Trees) <= rank(self.stage) < rank(PushStage::Done)
            ==> self.evidence.algorithm == GitHashAlgorithm::Sha1
        &&& rank(PushStage::BeforePush) <= rank(self.stage) < rank(PushStage::Done) ==> (
        self.evidence.git_head matches Some(h) && self.refspec@ == h@ + ":"@ + self.destination@)
    }

    /// Start a push of a verified publication.
    pub fn begin(push: Push, evidence: PublicationEvidence) -> (r: (PushRun, PushAction))
        ensures
            r.0.wf(),
            r.0.push == push,
            r.0.evidence == evidence,
            r.0.stage == PushStage::Provenance,
            r.0.view@ == evidence.view@,
            r.0.target is None,
            r.0.entries@.len() == 0,
            !r.0.committed,
            !r.0.leased,
            r.1 is EnforceProvenance,
    {
        let view = evidence.view.clone();
        let run = PushRun {
            push,
            stage: PushStage::Provenance,
            evidence,
            view,
            target: None,
            entries: Vec::new(),
            latest_state: String::new(),
            state_decodes: false,
            message: String::new(),
            committed: false,
            branch: String::new(),
            destination: String::new(),
            refspec: String::new(),
            leased: false,
        };
        (run, PushAction::EnforceProvenance)
    }

    fn fail(&mut self, error: CliError) -> (r: PushAction)
        ensures
            *final(self) == (PushRun { stage: PushStage::Done, ..*old(self) }),
            r == (PushAction::Fail { error }),
    {
        self.stage = PushStage::Done;
        PushAction::Fail { error }
    }

    /// What was to be done outside failed: the run is over.
    pub fn failed(&mut self, error: CliError) -> (r: PushAction)
        ensures
            final(self).wf(),
            stepped(*old(self), *final(self), r),
            if old(self).stage == PushStage::Done {
                r is OutOfTurn
            } else {
                r == (PushAction::Fail { error }) && moved(*old(self), *final(self), PushStage::Done)
            },
    {
        if self.stage == PushStage::Done {
            return PushAction::OutOfTurn;
        }
        self.fail(error)
    }

    /// What the user is told when the run failed, if a commit was created.
    pub fn retry_notice(&self) -> (r: Option<&'static str>)
        ensures
            match r {
                Some(m) => self.committed && m@
                    == "Commit created locally. Run 'git push' manually to retry."@,
                None => !self.committed,
            },
    {
        if self.committed {
            Some("Commit created locally. Run 'git push' manually to retry.")
        } else {
            None
        }
    }

    /// The provenance gate let the view pass.
    pub fn provenance_trusted(&mut self) -> (r: PushAction)
        requires
            old(self).wf(),
        ensures
            final(self).wf(),
            stepped(*old(self), *final(self), r),
            old(self).stage == PushStage::Provenance ==> r is CaptureConflicts && moved(
                *old(self),
                *final(self),
                PushStage::Conflicts,
            ),
            old(self).stage != PushStage::Provenance ==> r is OutOfTurn,
    {
        if self.stage != PushStage::Provenance {
            return PushAction::OutOfTurn;
        }
        self.stage = PushStage::Conflicts;
        PushAction::CaptureConflicts
    }

    /// Whether the view has unresolved conflicts is known: it goes on
    /// without any, or on demand with a current pack.
    pub fn conflicts_captured(&mut self, conflicted: bool) -> (r: PushAction)
        requires
            old(self).wf(),
        ensures
            final(self).wf(),
            stepped(*old(self), *final(self), r),
            if old(self).stage != PushStage::Conflicts {
                r is OutOfTurn
            } else if !conflicted {
                r is EnterWorkspace && moved(*old(self), *final(self), PushStage::Workspace)
            } else if old(self).push.allow_conflicts {
                r is FindPack && moved(*old(self), *final(self), PushStage::Pack)
            } else {
                &&& moved(*old(self), *final(self), PushStage::Done)
                &&& r matches PushAction::Fail { error } && error.is_invalid_operation(
                    push::conflicted_message(old(self).evidence.view@),
                )
            },
    {
        if self.stage != PushStage::Conflicts {
            return PushAction::OutOfTurn;
        }
        match self.push.conflict_gate(&self.evidence.view, conflicted) {
            Ok(ConflictGate::Clear) => {
                self.stage = PushStage::Workspace;
                PushAction::EnterWorkspace
            },
            Ok(ConflictGate::RequirePack) => {
                self.stage = PushStage::Pack;
                PushAction::FindPack
            },
            Err(e) => self.fail(e),
        }
    }

    /// Whether a published conflict pack is current is known.
    pub fn pack_checked(&mut self, current: bool, set_hash: &str) -> (r: PushAction)
        requires
            old(self).wf(),
        ensures
            final(self).wf(),
            stepped(*old(self), *final(self), r),
            if old(self).stage != PushStage::Pack {
                r is OutOfTurn
            } else if current {
                r is EnterWorkspace && moved(*old(self), *final(self), PushStage::Workspace)
            } else {
                &&& moved(*old(self), *final(self), PushStage::Done)
                &&& r matches PushAction::Fail { error } && error.is_invalid_operation(
                    push::stale_pack_message(set_hash@),
                )
            },
    {
        if self.stage != PushStage::Pack {
            return PushAction::OutOfTurn;
        }
        match require_current_pack(current, set_hash) {
            Ok(_) => {
                self.stage = PushStage::Workspace;
                PushAction::EnterWorkspace
            },
            Err(e) => self.fail(e),
        }
    }

    /// The workspace was entered, on this view.
    pub fn workspace_entered(&mut self, view: String) -> (r: PushAction)
        requires
            old(self).wf(),
        ensures
            final(self).wf(),
            stepped(*old(self), *final(self), r),
            if old(self).stage != PushStage::Workspace {
                r is OutOfTurn
            } else {
                r is TakeLock && *final(self) == (PushRun {
                    stage: PushStage::Lock,
                    view,
                    ..*old(self)
                })
            },
    {
        if self.stage != PushStage::Workspace {
            return PushAction::OutOfTurn;
        }
        self.view = view;
        self.stage = PushStage::Lock;
        PushAction::TakeLock
    }

    /// Whether the lock could be taken is known. Where another run holds it,
    /// that run owns the commit and this one ends.
    pub fn lock_taken(&mut self, held: bool) -> (r: PushAction)
        requires
            old(self).wf(),
        ensures
            final(self).wf(),
            stepped(*old(self), *final(self), r),
            if old(self).stage != PushStage::Lock {
                r is OutOfTurn
            } else if held {
                r is Reobserve && moved(*old(self), *final(self), PushStage::Leases)
            } else {
                r == (PushAction::Finish { notice: None }) && moved(*old(self), *final(self), PushStage::Done)
            },
    {
        if self.stage != PushStage::Lock {
            return PushAction::OutOfTurn;
        }
        if held {
            self.stage = PushStage::Leases;
            PushAction::Reobserve
        } else {
            self.stage = PushStage::Done;
            PushAction::Finish { notice: None }
        }
    }

    /// What was verified was observed anew under the lock.
    pub fn leases_observed(&mut self, current: &PublicationEvidence) -> (r: PushAction)
        requires
            old(self).wf(),
        ensures
            final(self).wf(),
            stepped(*old(self), *final(self), r),
            if old(self).stage != PushStage::Leases {
                r is OutOfTurn
            } else if shadow::same_leases(*current, old(self).evidence) {
                r is ReadScope && moved(*old(self), *final(self), PushStage::Scope)
            } else {
                ended(*old(self), *final(self), r, shadow::stale_publication_message())
            },
    {
        if self.stage != PushStage::Leases {
            return PushAction::OutOfTurn;
        }
        match self.evidence.reobserve(current) {
            Ok(_) => {
                self.stage = PushStage::Scope;
                PushAction::ReadScope
            },
            Err(e) => self.fail(e),
        }
    }

    /// The scope of the view was read: it decides on the branch that is
    /// pushed to.
    pub fn scope_read(&mut self, scope: ViewScope) -> (r: PushAction)
        requires
            old(self).wf(),
            old(self).stage == PushStage::Scope && old(self).push.branch is None && scope
                == ViewScope::Draft ==> !old(self).view@.contains('\0'),
        ensures
            final(self).wf(),
            stepped(*old(self), *final(self), r),
            ({
                let named = text::opt_text(old(self).push.branch);
                let view = old(self).view@;
                if old(self).stage != PushStage::Scope {
                    r is OutOfTurn
                } else if named is Some || scope == ViewScope::Shared {
                    &&& r == (PushAction::ReadHistory { notice: None })
                    &&& text::opt_text(final(self).target) == named
                    &&& *final(self) == PushRun {
                        stage: PushStage::History,
                        target: final(self).target,
                        ..*old(self)
                    }
                } else if push::valid_reference_name("refs/heads/"@ + view) {
                    &&& text::opt_text(final(self).target) == Some(view)
                    &&& *final(self) == PushRun {
                        stage: PushStage::History,
                        target: final(self).target,
                        ..*old(self)
                    }
                    &&& r matches PushAction::ReadHistory { notice } && text::opt_text(notice)
                        == Some(
                        "Draft view '"@ + view + "' publishes to git branch '"@ + view
                            + "' (created on the remote if absent)."@,
                    )
                } else {
                    ended(*old(self), *final(self), r,
                        "Draft view '"@ + view
                            + "' is not a valid git branch name; pass --branch to choose an explicit target."@,
                    )
                }
            }),
    {
        if self.stage != PushStage::Scope {
            return PushAction::OutOfTurn;
        }
        match Push::resolve_branch_override(as_text(&self.push.branch), scope, &self.view) {
            Err(e) => self.fail(e),
            Ok(target) => {
                let notice: Option<String> = if self.push.branch.is_some() {
                    None
                } else {
                    match &target {
                        None => None,
                        Some(branch) => {
                            let mut m: String = "Draft view '".to_owned();
                            m.append(&self.view);
                            m.append("' publishes to git branch '");
                            m.append(branch);
                            m.append("' (created on the remote if absent).");
                            Some(m)
                        },
                    }
                };
                self.target = target;
                self.stage = PushStage::History;
                PushAction::ReadHistory { notice }
            },
        }
    }

    /// The history of the view and the first-parent line of the branch,
    /// newest first, were read. `latest_state` is the text of the last state,
    /// `state_decodes` tells whether it is a Merkle value.
    pub fn history_read(
        &mut self,
        entries: Vec<HistoryEntry>,
        line: &Vec<PushedCommit>,
        latest_state: String,
        state_decodes: bool,
    ) -> (r: PushAction)
        requires
            old(self).wf(),
        ensures
            final(self).wf(),
            stepped(*old(self), *final(self), r),
            ({
                let last = push::last_pushed(line@, old(self).view@);
                let at = match last {
                    Some(s) => push::state_index(push::entry_states(entries@), s),
                    None => Some(-1int),
                };
                if old(self).stage != PushStage::History {
                    r is OutOfTurn
                } else if entries@.len() == 0 {
                    &&& moved(*old(self), *final(self), PushStage::Done)
                    &&& r matches PushAction::Finish { notice } && text::opt_text(notice) == Some(
                        "No changes recorded in the current view. Nothing to push."@,
                    )
                } else {
                    match at {
                        None => ended(*old(self), *final(self), r, push::drift_message(old(self).view@)),
                        Some(i) => {
                            &&& r is StageTree
                            &&& final(self).entries@ == entries@.skip(i + 1)
                            &&& *final(self) == PushRun {
                                stage: PushStage::Staging,
                                entries: final(self).entries,
                                latest_state,
                                state_decodes,
                                ..*old(self)
                            }
                        },
                    }
                }
            }),
    {
        if self.stage != PushStage::History {
            return PushAction::OutOfTurn;
        }
        let last = self.push.find_last_pushed_state(line, &self.view);
        let ghost all = entries@;
        proof {
            if let Some(s) = last {
                lemma_state_index(push::entry_states(all), s);
            }
        }
        match self.push.plan_history(&self.view, &entries, last) {
            Err(e) => self.fail(e),
            Ok(HistoryPlan::NothingRecorded) => {
                self.stage = PushStage::Done;
                PushAction::Finish {
                    notice: Some(
                        "No changes recorded in the current view. Nothing to push.".to_owned(),
                    ),
                }
            },
            Ok(HistoryPlan::Publish { start }) => {
                self.entries = entries_from(entries, start);
                self.latest_state = latest_state;
                self.state_decodes = state_decodes;
                self.stage = PushStage::Staging;
                PushAction::StageTree
            },
        }
    }

    /// The conflict markers and the paths of the tree are known.
    pub fn tree_staged(
        &mut self,
        working_copy: Option<&ConflictMarker>,
        recorded: Option<&ConflictMarker>,
        staged: &Vec<String>,
    ) -> (r: PushAction)
        requires
            old(self).wf(),
        ensures
            final(self).wf(),
            stepped(*old(self), *final(self), r),
            ({
                let marker = if old(self).push.allow_conflict_markers {
                    None
                } else {
                    match working_copy {
                        Some(m) => Some(m),
                        None => recorded,
                    }
                };
                if old(self).stage != PushStage::Staging {
                    r is OutOfTurn
                } else {
                    match marker {
                        Some(m) => ended(*old(self), *final(self), r,
                            shadow::marker_message(m.path@, m.line as nat),
                        ),
                        None => match shadow::first_forbidden(text::texts(staged@)) {
                            Some(p) => ended(*old(self), *final(self), r, shadow::forbidden_message(p)),
                            None => match old(self).evidence.algorithm {
                                GitHashAlgorithm::Sha1 => r is CompareTrees && moved(
                                    *old(self),
                                    *final(self),
                                    PushStage::Trees,
                                ),
                                GitHashAlgorithm::Sha256 => ended(
                                    *old(self),
                                    *final(self),
                                    r,
                                    shadow::unsupported_tree_message(),
                                ),
                            },
                        },
                    }
                }
            }),
    {
        if self.stage != PushStage::Staging {
            return PushAction::OutOfTurn;
        }
        let policy = marker_policy(self.push.allow_conflict_markers);
        match stage_and_validate_tree(&self.evidence, policy, working_copy, recorded, staged) {
            Ok(_) => {
                self.stage = PushStage::Trees;
                PushAction::CompareTrees
            },
            Err(e) => self.fail(e),
        }
    }

    /// The tree was compared with the current commit. `unchanged` tells
    /// whether they agree, `ahead` how many commits the target lacks.
    pub fn trees_compared(&mut self, unchanged: bool, ahead: usize, branch: &str) -> (r: PushAction)
        requires
            old(self).wf(),
        ensures
            final(self).wf(),
            stepped(*old(self), *final(self), r),
            if old(self).stage != PushStage::Trees {
                r is OutOfTurn
            } else {
                match push::push_step(
                    unchanged,
                    ahead as nat,
                    branch@,
                    text::opt_text(old(self).target),
                    old(self).push.no_push,
                    old(self).push.remote@,
                ) {
                    push::PushStepView::Commit => r is ResolveIdentity && moved(
                        *old(self),
                        *final(self),
                        PushStage::Identity,
                    ),
                    push::PushStepView::Stop { notice: n } => {
                        &&& moved(*old(self), *final(self), PushStage::Done)
                        &&& r matches PushAction::Finish { notice } && text::opt_text(notice)
                            == Some(n)
                    },
                    push::PushStepView::PushExisting { notice: n, .. } => {
                        &&& moved(*old(self), *final(self), PushStage::Branch)
                        &&& r matches PushAction::ReadBranch { notice } && notice@ == n
                    },
                }
            },
    {
        if self.stage != PushStage::Trees {
            return PushAction::OutOfTurn;
        }
        match self.push.plan_commit(unchanged, ahead, branch, as_text(&self.target)) {
            PushStep::Commit => {
                self.stage = PushStage::Identity;
                PushAction::ResolveIdentity
            },
            PushStep::Stop { notice } => {
                self.stage = PushStage::Done;
                PushAction::Finish { notice: Some(notice) }
            },
            PushStep::PushExisting { notice, target: _ } => {
                self.stage = PushStage::Branch;
                PushAction::ReadBranch { notice }
            },
        }
    }

    /// Who is behind the commit is known, and the keys of what was verified:
    /// its message can be written.
    pub fn identity_resolved(
        &mut self,
        manifest: String,
        policy: String,
        algorithm: GitHashAlgorithm,
        set_id: &str,
        author: &ProjectionAuthor,
    ) -> (r: PushAction)
        requires
            old(self).wf(),
        ensures
            final(self).wf(),
            stepped(*old(self), *final(self), r),
            if old(self).stage != PushStage::Identity {
                r is OutOfTurn
            } else if old(self).evidence.view@ != old(self).view@ || old(
                self,
            ).evidence.atomic_state@ != old(self).latest_state@ {
                ended(*old(self), *final(self), r,
                    "Atomic view/state changed after publication verification"@,
                )
            } else if !old(self).state_decodes {
                ended(*old(self), *final(self), r, "verified view state is not a valid Merkle value"@)
            } else {
                r is Recheck && *final(self) == (PushRun {
                    stage: PushStage::BeforeCommit,
                    message: final(self).message,
                    ..*old(self)
                }) && final(self).message@ == push::push_message(
                    push::body_of(
                        text::opt_text(old(self).push.message),
                        push::entry_messages(old(self).entries@),
                    ),
                    publication_of(old(self).evidence, manifest, policy, algorithm),
                    set_id@,
                    *author,
                    push::entry_hashes(old(self).entries@),
                )
            },
    {
        if self.stage != PushStage::Identity {
            return PushAction::OutOfTurn;
        }
        let publication = PublicationText {
            view: self.evidence.view.as_str().to_owned(),
            atomic_state: self.evidence.atomic_state.as_str().to_owned(),
            manifest,
            policy,
            algorithm,
            tree: self.evidence.git_tree.as_str().to_owned(),
        };
        match self.push.build_commit_message(
            &self.entries,
            &self.latest_state,
            self.state_decodes,
            &self.view,
            &publication,
            set_id,
            author,
        ) {
            Ok(m) => {
                self.message = m;
                self.stage = PushStage::BeforeCommit;
                PushAction::Recheck
            },
            Err(e) => self.fail(e),
        }
    }

    /// Right before the commit, what was verified and the current commit
    /// were observed anew.
    pub fn leases_rechecked(&mut self, current: &PublicationEvidence, head: Option<&str>) -> (r:
        PushAction)
        requires
            old(self).wf(),
        ensures
            final(self).wf(),
            stepped(*old(self), *final(self), r),
            ({
                let expected = text::opt_text(old(self).evidence.git_head);
                if old(self).stage != PushStage::BeforeCommit {
                    r is OutOfTurn
                } else if !shadow::same_leases(*current, old(self).evidence) {
                    ended(*old(self), *final(self), r, shadow::stale_publication_message())
                } else if text::opt_str(head) != expected {
                    ended(*old(self), *final(self), r, moved_before_commit(expected, text::opt_str(head)))
                } else {
                    &&& moved(*old(self), *final(self), PushStage::Commit)
                    &&& r matches PushAction::Commit { message } && message@ == old(self).message@
                }
            }),
    {
        if self.stage != PushStage::BeforeCommit {
            return PushAction::OutOfTurn;
        }
        match self.evidence.reobserve(current) {
            Ok(_) => {},
            Err(e) => {
                return self.fail(e);
            },
        }
        if !self.evidence.head_is(head) {
            let mut m: String = "Git HEAD lease changed before commit: expected ".to_owned();
            m.append(&show_head(as_text(&self.evidence.git_head)));
            m.append(", found ");
            m.append(&show_head(head));
            return self.fail(git_error(m));
        }
        self.stage = PushStage::Commit;
        PushAction::Commit { message: self.message.clone() }
    }

    /// The commit was created: the publication is bound to it.
    pub fn committed(&mut self, commit: &str, tree: &str, head: Option<&str>) -> (r: PushAction)
        requires
            old(self).wf(),
        ensures
            final(self).wf(),
            stepped(*old(self), *final(self), r),
            ({
                let e = old(self).evidence;
                let created = "Created git commit "@ + parse::short_id(commit@) + " on view '"@
                    + old(self).view@ + (if old(self).entries@.len() > 0 {
                    "' ("@ + text::decimal(old(self).entries@.len()) + " new change"@
                        + push::plural(old(self).entries@.len()) + ")"@
                } else {
                    "' (working copy changes)"@
                });
                if old(self).stage != PushStage::Commit {
                    r is OutOfTurn
                } else if tree@ != e.git_tree@ {
                    ended(*old(self), *final(self), r,
                        "refusing to bind a Git commit whose tree differs from the verified project tree"@,
                    )
                } else if head is None {
                    ended(*old(self), *final(self), r,
                        "cannot bind publication to an unborn or symbolic-only HEAD"@,
                    )
                } else if head->0@ != commit@ {
                    ended(*old(self), *final(self), r,
                        "Git HEAD changed while binding publication: expected "@ + commit@
                            + ", found "@ + head->0@,
                    )
                } else {
                    &&& *final(self) == PushRun {
                        stage: if old(self).push.no_push {
                            PushStage::Done
                        } else {
                            PushStage::Branch
                        },
                        committed: true,
                        evidence: PublicationEvidence {
                            git_head: final(self).evidence.git_head,
                            ..e
                        },
                        ..*old(self)
                    }
                    &&& text::opt_text(final(self).evidence.git_head) == Some(commit@)
                    &&& if old(self).push.no_push {
                        r matches PushAction::Finish { notice } && text::opt_text(notice) == Some(
                            created,
                        )
                    } else {
                        r matches PushAction::ReadBranch { notice } && notice@ == created
                    }
                }
            }),
    {
        if self.stage != PushStage::Commit {
            return PushAction::OutOfTurn;
        }
        match self.evidence.bind_committed_head(commit, tree, head) {
            Ok(_) => {},
            Err(e) => {
                return self.fail(e);
            },
        }
        self.committed = true;
        let notice = Push::created_notice(&short_sha(commit), &self.view, self.entries.len());
        if self.push.no_push {
            self.stage = PushStage::Done;
            PushAction::Finish { notice: Some(notice) }
        } else {
            self.stage = PushStage::Branch;
            PushAction::ReadBranch { notice }
        }
    }

    /// The current branch was read: it names the destination, unless the
    /// push is redirected.
    pub fn branch_read(&mut self, branch: String) -> (r: PushAction)
        requires
            old(self).wf(),
        ensures
            final(self).wf(),
            stepped(*old(self), *final(self), r),
            if old(self).stage != PushStage::Branch {
                r is OutOfTurn
            } else {
                let d = "refs/heads/"@ + (match text::opt_text(old(self).target) {
                    Some(b) => b,
                    None => branch@,
                });
                &&& *final(self) == PushRun {
                    stage: PushStage::Destination,
                    branch,
                    destination: final(self).destination,
                    ..*old(self)
                }
                &&& final(self).destination@ == d
                &&& r matches PushAction::CheckDestination { destination } && destination@ == d
            },
    {
        if self.stage != PushStage::Branch {
            return PushAction::OutOfTurn;
        }
        self.destination = Push::destination(&branch, as_text(&self.target));
        self.branch = branch;
        self.stage = PushStage::Destination;
        PushAction::CheckDestination { destination: self.destination.clone() }
    }

    /// Whether the destination may be published to is known.
    pub fn destination_checked(&mut self, publishable: bool) -> (r: PushAction)
        requires
            old(self).wf(),
        ensures
            final(self).wf(),
            stepped(*old(self), *final(self), r),
            if old(self).stage != PushStage::Destination {
                r is OutOfTurn
            } else if !publishable {
                ended(*old(self), *final(self), r,
                    "refusing to publish local recovery ref '"@ + old(self).destination@ + "'"@,
                )
            } else if old(self).evidence.git_head is None {
                ended(*old(self), *final(self), r,
                    "the verified publication carries no Git commit to push"@,
                )
            } else {
                &&& r is ObserveHead
                &&& *final(self) == PushRun {
                    stage: PushStage::BeforePush,
                    refspec: final(self).refspec,
                    ..*old(self)
                }
                &&& final(self).refspec@ == old(self).evidence.git_head->0@ + ":"@ + old(
                    self,
                ).destination@
            },
    {
        if self.stage != PushStage::Destination {
            return PushAction::OutOfTurn;
        }
        match Push::refspec(&self.destination, publishable, as_text(&self.evidence.git_head)) {
            Ok(refspec) => {
                self.refspec = refspec;
                self.stage = PushStage::BeforePush;
                PushAction::ObserveHead
            },
            Err(e) => self.fail(e),
        }
    }

    /// Right before the push, what was verified and the current commit with
    /// its tree were observed anew.
    pub fn head_observed(&mut self, current: &PublicationEvidence, head: &str, tree: &str) -> (r:
        PushAction)
        requires
            old(self).wf(),
        ensures
            final(self).wf(),
            stepped(*old(self), *final(self), r),
            ({
                let e = old(self).evidence;
                if old(self).stage != PushStage::BeforePush {
                    r is OutOfTurn
                } else if !shadow::same_leases(*current, e) {
                    ended(*old(self), *final(self), r, shadow::stale_publication_message())
                } else if head@ != e.git_head->0@ || tree@ != e.git_tree@ {
                    ended(*old(self), *final(self), r,
                        "Git HEAD lease changed before push: expected commit "@ + e.git_head->0@
                            + " with tree "@ + e.git_tree@ + ", found commit "@ + head@
                            + " with tree "@ + tree@,
                    )
                } else {
                    r is ReadMapping && moved(*old(self), *final(self), PushStage::Mapping)
                }
            }),
    {
        if self.stage != PushStage::BeforePush {
            return PushAction::OutOfTurn;
        }
        match self.evidence.reobserve(current) {
            Ok(_) => {},
            Err(e) => {
                return self.fail(e);
            },
        }
        match self.evidence.reobserve_for_git_push(head, tree) {
            Ok(_) => {
                self.stage = PushStage::Mapping;
                PushAction::ReadMapping
            },
            Err(e) => self.fail(e),
        }
    }

    fn send(&mut self, lease: Option<&str>) -> (r: PushAction)
        requires
            old(self).wf(),
            old(self).stage == PushStage::Mapping || old(self).stage == PushStage::RemoteRef,
        ensures
            final(self).wf(),
            sends(*old(self), *final(self), r, text::opt_str(lease)),
    {
        let arguments = self.push.push_arguments(lease, &self.refspec);
        self.leased = lease.is_some();
        self.stage = PushStage::Sending;
        PushAction::RunGit { arguments }
    }

    /// The mapping of the view was read: it gives the lease, or asks for an
    /// observation of the remote first. What is sent is the verified commit.
    pub fn mapping_read(&mut self, mapping: Option<&RefMapping>) -> (r: PushAction)
        requires
            old(self).wf(),
        ensures
            final(self).wf(),
            stepped(*old(self), *final(self), r),
            if old(self).stage != PushStage::Mapping {
                r is OutOfTurn
            } else {
                match push::lease_plan_of(
                    ref_mapping::opt_mapping(mapping),
                    old(self).push.remote@,
                    old(self).destination@,
                ) {
                    push::LeasePlanView::Leased(l) => sends(
                        *old(self),
                        *final(self),
                        r,
                        Some(l),
                    ),
                    push::LeasePlanView::Unleased => sends(*old(self), *final(self), r, None),
                    push::LeasePlanView::ObserveFirst => {
                        &&& moved(*old(self), *final(self), PushStage::RemoteRef)
                        &&& r matches PushAction::ObserveRemote { destination } && destination@
                            == old(self).destination@
                    },
                }
            },
    {
        if self.stage != PushStage::Mapping {
            return PushAction::OutOfTurn;
        }
        match self.push.lease_plan(mapping, &self.destination) {
            LeasePlan::Leased(l) => self.send(Some(l.as_str())),
            LeasePlan::Unleased => self.send(None),
            LeasePlan::ObserveFirst => {
                self.stage = PushStage::RemoteRef;
                PushAction::ObserveRemote { destination: self.destination.clone() }
            },
        }
    }

    /// The ref at the remote was observed for the first time: an absent one
    /// is leased as absent, one that is there is never leased.
    pub fn remote_observed(&mut self, tip: Option<&str>) -> (r: PushAction)
        requires
            old(self).wf(),
        ensures
            final(self).wf(),
            stepped(*old(self), *final(self), r),
            if old(self).stage != PushStage::RemoteRef {
                r is OutOfTurn
            } else {
                sends(
                    *old(self),
                    *final(self),
                    r,
                    if tip is None {
                        Some(transport::create_only_lease(old(self).destination@))
                    } else {
                        None
                    },
                )
            },
    {
        if self.stage != PushStage::RemoteRef {
            return PushAction::OutOfTurn;
        }
        let lease = Push::lease_after_observation(tip, &self.destination);
        self.send(as_text(&lease))
    }

    /// `git push` ended, with this status.
    pub fn git_pushed(&mut self, success: bool, status: &str) -> (r: PushAction)
        requires
            old(self).wf(),
        ensures
            final(self).wf(),
            stepped(*old(self), *final(self), r),
            if old(self).stage != PushStage::Sending {
                r is OutOfTurn
            } else if success {
                &&& moved(*old(self), *final(self), PushStage::Confirmation)
                &&& r matches PushAction::ConfirmRemote { destination } && destination@ == old(
                    self,
                ).destination@
            } else {
                ended(*old(self), *final(self), r,
                    "git push exited with "@ + status@ + (if old(self).leased {
                        " (the remote ref moved since it was last observed; the lease refused to overwrite newer external work — fetch/reconcile and retry)"@
                    } else {
                        ""@
                    }),
                )
            },
    {
        if self.stage != PushStage::Sending {
            return PushAction::OutOfTurn;
        }
        if success {
            self.stage = PushStage::Confirmation;
            PushAction::ConfirmRemote { destination: self.destination.clone() }
        } else {
            let error = Push::push_failure(status, self.leased);
            self.fail(error)
        }
    }

    /// The ref at the remote was observed after the push; `shown` is how the
    /// observation is told of.
    pub fn remote_confirmed(&mut self, tip: Option<&str>, shown: &str) -> (r: PushAction)
        requires
            old(self).wf(),
        ensures
            final(self).wf(),
            stepped(*old(self), *final(self), r),
            ({
                let pushed = old(self).evidence.git_head->0@;
                if old(self).stage != PushStage::Confirmation {
                    r is OutOfTurn
                } else if text::opt_str(tip) == Some(pushed) {
                    &&& moved(*old(self), *final(self), PushStage::Record)
                    &&& r matches PushAction::RecordTip { tip } && tip@ == pushed
                } else {
                    ended(*old(self), *final(self), r,
                        unconfirmed_push(
                            old(self).push.remote@,
                            old(self).destination@,
                            shown@,
                            pushed,
                        ),
                    )
                }
            }),
    {
        if self.stage != PushStage::Confirmation {
            return PushAction::OutOfTurn;
        }
        let pushed: String = match &self.evidence.git_head {
            Some(h) => h.clone(),
            None => String::new(),
        };
        if Push::remote_holds_push(tip, &pushed) {
            self.stage = PushStage::Record;
            PushAction::RecordTip { tip: pushed }
        } else {
            let mut m: String = "remote '".to_owned();
            m.append(&self.push.remote);
            m.append("/");
            m.append(&self.destination);
            m.append("' holds ");
            m.append(shown);
            m.append(" but the pushed commit is ");
            m.append(&pushed);
            m.append("; the remote update is NOT recorded as observed");
            self.fail(git_error(m))
        }
    }

    /// The observation was recorded: the push is complete.
    pub fn recorded(&mut self) -> (r: PushAction)
        requires
            old(self).wf(),
        ensures
            final(self).wf(),
            stepped(*old(self), *final(self), r),
            if old(self).stage != PushStage::Record {
                r is OutOfTurn
            } else {
                &&& moved(*old(self), *final(self), PushStage::Done)
                &&& r matches PushAction::Finish { notice } && text::opt_text(notice) == Some(
                    "Pushed to "@ + old(self).push.remote@ + "/"@ + (match text::opt_text(
                        old(self).target,
                    ) {
                        Some(b) => b,
                        None => old(self).branch@,
                    }),
                )
            },
    {
        if self.stage != PushStage::Record {
            return PushAction::OutOfTurn;
        }
        let mut m: String = "Pushed to ".to_owned();
        m.append(&self.push.remote);
        m.append("/");
        m.append(&self.push.target_branch(Some(self.branch.as_str()), as_text(&self.target)));
        self.stage = PushStage::Done;
        PushAction::Finish { notice: Some(m) }
    }
}

proof fn lemma_state_index(states: Seq<crate::message::Merkle>, s: crate::message::Merkle)
    ensures
        push::state_index(states, s) matches Some(i) ==> 0 <= i < states.len(),
    decreases states.len(),
{
    if states.len() > 0 {
        lemma_state_index(states.drop_first(), s);
    }
}

/// The stages that a run goes through, from its start.
pub open spec fn is_course(stages: Seq<PushStage>, no_push: bool) -> bool {
    &&& stages.len() > 0
    &&& stages[0] == PushStage::Provenance
    &&& forall|i: int, j: int|
        0 <= i && j == i + 1 && j < stages.len() ==> may_follow(
            #[trigger] stages[i],
            #[trigger] stages[j],
            no_push,
        )
}

/// Nothing is committed and nothing pushed before every gate was passed: a
/// run that comes to its commit, or to its push, went through the provenance
/// gate, the conflict gate, the lock, the observation under it, the history
/// and the tree. One that comes to its commit also observed everything anew
/// right before it, and one that comes to its push right before that.
pub proof fn every_gate_comes_first(stages: Seq<PushStage>, no_push: bool, n: int)
    requires
        is_course(stages, no_push),
        0 <= n < stages.len(),
    ensures
        ({
            let here = stages.take(n + 1);
            let through = |s: PushStage| here.contains(s);
            &&& rank(PushStage::Commit) <= rank(stages[n]) < rank(PushStage::Done) ==> through(
                PushStage::Provenance,
            ) && through(PushStage::Conflicts) && through(PushStage::Workspace) && through(
                PushStage::Lock,
            ) && through(PushStage::Leases) && through(PushStage::Scope) && through(
                PushStage::History,
            ) && through(PushStage::Staging) && through(PushStage::Trees)
            &&& stages[n] == PushStage::Commit ==> through(PushStage::Identity) && through(
                PushStage::BeforeCommit,
            )
            &&& rank(PushStage::Mapping) <= rank(stages[n]) < rank(PushStage::Done) ==> through(
                PushStage::Destination,
            ) && through(PushStage::BeforePush)
        }),
{
    lemma_passed(stages, no_push, n);
    let here = stages.take(n + 1);
    assert forall|s: PushStage| passed(stages, n, s) implies here.contains(s) by {
        let i = choose|i: int| 0 <= i <= n && stages[i] == s;
        assert(here[i] == s);
    }
}

/// Whether a run has been at a stage.
pub open spec fn passed(stages: Seq<PushStage>, n: int, s: PushStage) -> bool {
    exists|i: int| 0 <= i <= n && stages[i] == s
}

/// Whether a run has been at every stage that cannot be left out before the
/// one that it is at.
pub open spec fn came_through(stages: Seq<PushStage>, n: int) -> bool {
    let k = rank(stages[n]);
    &&& 0 <= k < 21 ==> passed(stages, n, PushStage::Provenance)
    &&& 1 <= k < 21 ==> passed(stages, n, PushStage::Conflicts)
    &&& 3 <= k < 21 ==> passed(stages, n, PushStage::Workspace)
    &&& 4 <= k < 21 ==> passed(stages, n, PushStage::Lock)
    &&& 5 <= k < 21 ==> passed(stages, n, PushStage::Leases)
    &&& 6 <= k < 21 ==> passed(stages, n, PushStage::Scope)
    &&& 7 <= k < 21 ==> passed(stages, n, PushStage::History)
    &&& 8 <= k < 21 ==> passed(stages, n, PushStage::Staging)
    &&& 9 <= k < 21 ==> passed(stages, n, PushStage::Trees)
    &&& 10 <= k <= 12 ==> passed(stages, n, PushStage::Identity)
    &&& 11 <= k <= 12 ==> passed(stages, n, PushStage::BeforeCommit)
    &&& 13 <= k < 21 ==> passed(stages, n, PushStage::Branch)
    &&& 14 <= k < 21 ==> passed(stages, n, PushStage::Destination)
    &&& 15 <= k < 21 ==> passed(stages, n, PushStage::BeforePush)
}

proof fn lemma_passed(stages: Seq<PushStage>, no_push: bool, n: int)
    requires
        is_course(stages, no_push),
        0 <= n < stages.len(),
    ensures
        came_through(stages, n),
    decreases n,
{
    assert(passed(stages, n, stages[n]));
    if n > 0 {
        lemma_passed(stages, no_push, n - 1);
        assert(may_follow(stages[n - 1], stages[n], no_push));
        assert forall|s: PushStage| passed(stages, n - 1, s) implies passed(stages, n, s) by {
            let i = choose|i: int| 0 <= i <= n - 1 && stages[i] == s;
            assert(0 <= i <= n && stages[i] == s);
        }
        assert(rank(stages[n - 1]) < 21 || stages[n] == PushStage::Done);
    }
}

/// A run that must not push never does: it never comes to the stage at which
/// `git push` runs.
pub proof fn no_push_never_pushes(stages: Seq<PushStage>, n: int)
    requires
        is_course(stages, true),
        0 <= n < stages.len(),
    ensures
        rank(stages[n]) <= rank(PushStage::Commit) || stages[n] == PushStage::Done,
    decreases n,
{
    if n > 0 {
        no_push_never_pushes(stages, n - 1);
        assert(may_follow(stages[n - 1], stages[n], true));
    }
}

/// What every event does to a run is a step of its course: the stages of a
/// run that follow each other by events are a course of it.
pub proof fn events_make_a_course(stages: Seq<PushStage>, no_push: bool, a: PushRun, b: PushRun, r:
    PushAction)
    requires
        is_course(stages, no_push),
        stages.last() == a.stage,
        a.push.no_push == no_push,
        stepped(a, b, r),
        r !is OutOfTurn,
    ensures
        is_course(stages.push(b.stage), no_push),
        b.push.no_push == no_push,
{
    let longer = stages.push(b.stage);
    assert forall|i: int, j: int| 0 <= i && j == i + 1 && j < longer.len() implies may_follow(
        #[trigger] longer[i],
        #[trigger] longer[j],
        no_push,
    ) by {
        if j < stages.len() {
            assert(may_follow(stages[i], stages[j], no_push));
        }
    }
}

/// A run as its events leave it, one after the other.
pub open spec fn is_story(runs: Seq<PushRun>, actions: Seq<PushAction>) -> bool {
    &&& runs.len() == actions.len() + 1
    &&& forall|i: int|
        0 <= i < actions.len() ==> stepped(runs[i], runs[i + 1], #[trigger] actions[i])
    &&& forall|i: int| 0 <= i < runs.len() ==> (#[trigger] runs[i]).wf()
}

proof fn lemma_kept(runs: Seq<PushRun>, actions: Seq<PushAction>, i: int, j: int)
    requires
        is_story(runs, actions),
        0 <= i <= j < runs.len(),
    ensures
        rank(PushStage::Branch) <= rank(runs[i].stage) ==> runs[j].evidence == runs[i].evidence,
        rank(PushStage::Destination) <= rank(runs[i].stage) ==> runs[j].destination
            == runs[i].destination,
        rank(runs[i].stage) <= rank(runs[j].stage),
        runs[j].push == runs[i].push,
    decreases j - i,
{
    if i < j {
        lemma_kept(runs, actions, i, j - 1);
        assert(stepped(runs[j - 1], runs[j - 1 + 1], actions[j - 1]));
    }
}

/// What is pushed is what was verified, and where it was checked: a run that
/// pushes and confirms does so with the commit that it held when it asked for
/// the current branch, to the ref that it asked to be checked. No later event
/// puts another commit or another ref in their place.
pub proof fn the_verified_commit_is_pushed(
    runs: Seq<PushRun>,
    actions: Seq<PushAction>,
    bound: int,
    checked: int,
    n: int,
)
    requires
        is_story(runs, actions),
        0 <= bound <= checked <= n < runs.len(),
        runs[bound].stage == PushStage::Branch,
        runs[checked].stage == PushStage::Destination,
        rank(PushStage::BeforePush) <= rank(runs[n].stage) < rank(PushStage::Done),
    ensures
        runs[n].evidence == runs[bound].evidence,
        runs[n].destination == runs[checked].destination,
        runs[bound].evidence.git_head matches Some(h) && runs[n].refspec@ == h@ + ":"@
            + runs[checked].destination@,
{
    lemma_kept(runs, actions, bound, n);
    lemma_kept(runs, actions, checked, n);
    assert(runs[n].wf());
}

} // verus!
