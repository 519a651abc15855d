//! The run of a publication: a draft view put on a new branch, once the
//! workspace is in order and the commit is the verified one.
use crate::error::CliError;
use crate::ref_mapping;
use crate::ref_mapping::{
    baseline_mapping, mapped_ref_tip_name, publication_source, publication_source_ref,
    publication_target, publishable_scope, published_mapping, Checkpoint, RefMapping, ViewScope,
};
use crate::text;
use vstd::prelude::*;

verus! {

/// How far a publication has come: what it waits for.
#[derive(Clone, Copy, Debug, PartialEq, Eq, Structural)]
pub enum PublishStage {
    /// The scope and the state of the view.
    Scope,
    /// The entry into the workspace.
    Workspace,
    /// The word that the working tree is clean.
    Worktree,
    /// What occupies the branch.
    Target,
    /// The mapping of the view.
    Mapping,
    /// The tip of the ref that a view without a mapping has.
    Tip,
    /// The word that the first mapping is saved.
    Baseline,
    /// The commit to publish.
    Source,
    /// The verified checkpoint.
    Checkpoint,
    /// The word that the branch is there.
    Branch,
    /// Nothing: the view is published.
    Done,
    /// Nothing: the publication failed.
    Failed,
}

/// What is to be done next.
#[derive(Debug)]
pub enum PublishAction {
    /// Read the scope and the state of the view.
    ReadScope,
    /// Enter the workspace.
    EnterWorkspace,
    /// Require that the working tree is clean.
    RequireClean,
    /// Read what occupies this ref.
    ReadTarget { name: String },
    /// Read the mapping of the view.
    ReadMapping,
    /// Read the tip of this ref, where there is one.
    ReadTip { name: Option<String> },
    /// Save the first mapping of the view.
    SaveBaseline,
    /// Read the commit of this ref, or the one that the view adopted.
    ReadSource { name: String },
    /// Read the verified checkpoint.
    ReadCheckpoint,
    /// Create this ref at this commit, and save the mapping with it.
    CreateBranch { name: String, commit: String },
    /// The view is published; what the user is told.
    Finish { notice: String },
    /// The publication failed.
    Fail { error: CliError },
    /// The publication does not wait for this.
    OutOfTurn,
}

/// A publication that is under way.
#[derive(Debug)]
pub struct PublishRun {
    pub view: String,
    pub branch: String,
    pub stage: PublishStage,
    /// The scope of the view, once it is read.
    pub scope: Option<ViewScope>,
    /// The state of the view.
    pub state: String,
    /// Whether the workspace was entered.
    pub entered: bool,
    /// Whether the working tree was found clean.
    pub clean: bool,
    /// Whether the branch was found vacant.
    pub vacant: bool,
    /// Whether the view keeps no ref of its own.
    pub ephemeral: bool,
    /// The mapping that the publication starts from.
    pub baseline: Option<RefMapping>,
    /// The commit to publish.
    pub commit: String,
    /// The verified checkpoint.
    pub checkpoint: Option<Checkpoint>,
    /// The mapping of the published view.
    pub mapping: Option<RefMapping>,
}

/// A publication as a value.
pub struct PublishView {
    pub view: Seq<char>,
    pub branch: Seq<char>,
    pub stage: PublishStage,
    pub scope: Option<ViewScope>,
    pub state: Seq<char>,
    pub entered: bool,
    pub clean: bool,
    pub vacant: bool,
    pub ephemeral: bool,
    pub baseline: Option<ref_mapping::RefMappingView>,
    pub commit: Seq<char>,
    pub checkpoint: Option<(Seq<char>, Seq<char>)>,
    pub mapping: Option<ref_mapping::RefMappingView>,
}

/// The value of a mapping that may be missing.
pub open spec fn held_mapping(m: Option<RefMapping>) -> Option<ref_mapping::RefMappingView> {
    match m {
        Some(x) => Some(x@),
        None => None,
    }
}

/// The value of a checkpoint that may be missing.
pub open spec fn held_checkpoint(c: Option<Checkpoint>) -> Option<(Seq<char>, Seq<char>)> {
    match c {
        Some(x) => Some((x.view@, x.git_head@)),
        None => None,
    }
}

impl View for PublishRun {
    type V = PublishView;

    open spec fn view(&self) -> PublishView {
        PublishView {
            view: self.view@,
            branch: self.branch@,
            stage: self.stage,
            scope: self.scope,
            state: self.state@,
            entered: self.entered,
            clean: self.clean,
            vacant: self.vacant,
            ephemeral: self.ephemeral,
            baseline: held_mapping(self.baseline),
            commit: self.commit@,
            checkpoint: held_checkpoint(self.checkpoint),
            mapping: held_mapping(self.mapping),
        }
    }
}

/// How many gates a publication has passed at a stage.
pub open spec fn gates(stage: PublishStage) -> nat {
    match stage {
        PublishStage::Scope => 0,
        PublishStage::Workspace => 1,
        PublishStage::Worktree => 2,
        PublishStage::Target => 3,
        PublishStage::Mapping => 4,
        PublishStage::Tip => 4,
        PublishStage::Baseline => 5,
        PublishStage::Source => 5,
        PublishStage::Checkpoint => 5,
        PublishStage::Branch => 6,
        PublishStage::Done => 6,
        PublishStage::Failed => 0,
    }
}

/// The branch that a publication creates.
pub open spec fn published_ref(branch: Seq<char>) -> Seq<char> {
    "refs/heads/"@ + branch
}

/// The ref whose commit is published.
pub open spec fn source_ref(
    baseline: Option<ref_mapping::RefMappingView>,
    view: Seq<char>,
) -> Seq<char> {
    match baseline {
        Some(m) => match m.local_ref {
            Some(l) => l,
            None => "refs/atomic/views/"@ + view,
        },
        None => "refs/atomic/views/"@ + view,
    }
}

/// The mapping of a published view.
pub open spec fn mapping_after(p: PublishView, view_id: u64) -> ref_mapping::RefMappingView {
    ref_mapping::RefMappingView {
        view_id,
        view_name: p.view,
        scope: p.scope->0,
        local_ref: Some(published_ref(p.branch)),
        remote: p.baseline->0.remote,
        last_observed_local: Some(p.commit),
        last_observed_remote: p.baseline->0.last_observed_remote,
        last_exported: Some(p.commit),
        last_exported_state: Some(p.state),
        last_observed_atomic: Some(p.state),
        status: ref_mapping::RefSyncStatus::Synchronized,
    }
}

/// What the user is told of a published view.
pub open spec fn published_notice(p: PublishView) -> Seq<char> {
    "Published draft view '"@ + p.view + "' on branch '"@ + p.branch + "' at "@ + p.commit
        + "; the view remains a Draft in Atomic"@
}

/// Whether the publication failed with the Git error `m`.
pub open spec fn refused(a: PublishView, b: PublishView, r: PublishAction, m: Seq<char>) -> bool {
    &&& b == PublishView { stage: PublishStage::Failed, ..a }
    &&& r matches PublishAction::Fail { error } && error.is_git_error(m)
}

impl PublishRun {
    /// Every gate that lies behind the stage was passed.
    pub open spec fn wf(&self) -> bool {
        let k = gates(self.stage);
        &&& k >= 1 ==> self.scope == Some(ViewScope::Draft)
        &&& k >= 2 ==> self.entered
        &&& k >= 3 ==> self.clean
        &&& k >= 4 ==> self.vacant
        &&& k >= 5 ==> self.baseline is Some
        &&& k >= 6 ==> {
            &&& ref_mapping::source_refusal(
                self.view@,
                Some(self.commit@),
                held_checkpoint(self.checkpoint),
            ) is None
            &&& self.mapping matches Some(m) && m@ == mapping_after(self@, m@.view_id)
        }
    }

    /// Start to publish a view on a branch.
    pub fn begin(view: String, branch: String) -> (r: (PublishRun, PublishAction))
        ensures
            r.0.wf(),
            r.0.view == view,
            r.0.branch == branch,
            r.0.stage == PublishStage::Scope,
            r.1 is ReadScope,
    {
        let run = PublishRun {
            view,
            branch,
            stage: PublishStage::Scope,
            scope: None,
            state: String::new(),
            entered: false,
            clean: false,
            vacant: false,
            ephemeral: false,
            baseline: None,
            commit: String::new(),
            checkpoint: None,
            mapping: None,
        };
        (run, PublishAction::ReadScope)
    }

    fn fail(&mut self, error: CliError) -> (r: PublishAction)
        ensures
            final(self).wf(),
            *final(self) == (PublishRun { stage: PublishStage::Failed, ..*old(self) }),
            r == (PublishAction::Fail { error }),
    {
        self.stage = PublishStage::Failed;
        PublishAction::Fail { error }
    }

    /// What was to be done outside failed.
    pub fn failed(&mut self, error: CliError) -> (r: PublishAction)
        requires
            old(self).wf(),
        ensures
            final(self).wf(),
            if old(self).stage == PublishStage::Done || old(self).stage == PublishStage::Failed {
                *final(self) == *old(self) && r is OutOfTurn
            } else {
                *final(self) == (PublishRun { stage: PublishStage::Failed, ..*old(self) }) && r
                    == (PublishAction::Fail { error })
            },
    {
        if self.stage == PublishStage::Done || self.stage == PublishStage::Failed {
            return PublishAction::OutOfTurn;
        }
        self.fail(error)
    }

    /// The scope and the state of the view were read; only a draft is
    /// published.
    pub fn scope_read(&mut self, scope: ViewScope, state: String, ephemeral: bool) -> (r:
        PublishAction)
        requires
            old(self).wf(),
        ensures
            final(self).wf(),
            if old(self).stage != PublishStage::Scope {
                *final(self) == *old(self) && r is OutOfTurn
            } else if scope == ViewScope::Shared {
                refused(
                    old(self)@,
                    final(self)@,
                    r,
                    "view '"@ + old(self).view@
                        + "' is shared and already maps to a Git ref; publish applies to Draft views"@,
                )
            } else {
                final(self)@ == (PublishView {
                    stage: PublishStage::Workspace,
                    scope: Some(scope),
                    state: state@,
                    ephemeral,
                    ..old(self)@
                }) && r is EnterWorkspace
            },
    {
        if self.stage != PublishStage::Scope {
            return PublishAction::OutOfTurn;
        }
        if let Err(e) = publishable_scope(&self.view, scope) {
            return self.fail(e);
        }
        self.scope = Some(scope);
        self.state = state;
        self.ephemeral = ephemeral;
        self.stage = PublishStage::Workspace;
        PublishAction::EnterWorkspace
    }

    /// The workspace was entered.
    pub fn workspace_entered(&mut self) -> (r: PublishAction)
        requires
            old(self).wf(),
        ensures
            final(self).wf(),
            if old(self).stage != PublishStage::Workspace {
                *final(self) == *old(self) && r is OutOfTurn
            } else {
                *final(self) == (PublishRun {
                    stage: PublishStage::Worktree,
                    entered: true,
                    ..*old(self)
                }) && r is RequireClean
            },
    {
        if self.stage != PublishStage::Workspace {
            return PublishAction::OutOfTurn;
        }
        self.entered = true;
        self.stage = PublishStage::Worktree;
        PublishAction::RequireClean
    }

    /// The working tree is clean.
    pub fn worktree_clean(&mut self) -> (r: PublishAction)
        requires
            old(self).wf(),
        ensures
            final(self).wf(),
            if old(self).stage != PublishStage::Worktree {
                *final(self) == *old(self) && r is OutOfTurn
            } else {
                *final(self) == (PublishRun {
                    stage: PublishStage::Target,
                    clean: true,
                    ..*old(self)
                }) && (r matches PublishAction::ReadTarget { name } && name@ == published_ref(
                    old(self).branch@,
                ))
            },
    {
        if self.stage != PublishStage::Worktree {
            return PublishAction::OutOfTurn;
        }
        self.clean = true;
        self.stage = PublishStage::Target;
        let mut name: String = "refs/heads/".to_owned();
        name.append(&self.branch);
        PublishAction::ReadTarget { name }
    }

    /// What occupies the branch was read: nothing may. An occupant has a
    /// commit, or is symbolic.
    pub fn target_read(&mut self, occupant: Option<Option<&str>>) -> (r: PublishAction)
        requires
            old(self).wf(),
        ensures
            final(self).wf(),
            if old(self).stage != PublishStage::Target {
                *final(self) == *old(self) && r is OutOfTurn
            } else {
                match occupant {
                    Some(tip) => refused(
                        old(self)@,
                        final(self)@,
                        r,
                        ref_mapping::occupied_message(
                            old(self).view@,
                            old(self).branch@,
                            text::opt_str(tip),
                        ),
                    ),
                    None => *final(self) == (PublishRun {
                        stage: PublishStage::Mapping,
                        vacant: true,
                        ..*old(self)
                    }) && r is ReadMapping,
                }
            },
    {
        if self.stage != PublishStage::Target {
            return PublishAction::OutOfTurn;
        }
        match publication_target(&self.view, &self.branch, occupant) {
            Err(e) => self.fail(e),
            Ok(_) => {
                self.vacant = true;
                self.stage = PublishStage::Mapping;
                PublishAction::ReadMapping
            },
        }
    }

    fn read_source(&mut self) -> (r: PublishAction)
        requires
            old(self).baseline is Some,
        ensures
            *final(self) == (PublishRun { stage: PublishStage::Source, ..*old(self) }),
            r matches PublishAction::ReadSource { name } && name@ == source_ref(
                old(self)@.baseline,
                old(self).view@,
            ),
    {
        let name = match &self.baseline {
            Some(m) => publication_source_ref(m, &self.view),
            None => String::new(),
        };
        self.stage = PublishStage::Source;
        PublishAction::ReadSource { name }
    }

    /// The mapping of the view was read. A view without one gets its first
    /// mapping from what its ref holds.
    pub fn mapping_read(&mut self, mapping: Option<RefMapping>) -> (r: PublishAction)
        requires
            old(self).wf(),
        ensures
            final(self).wf(),
            if old(self).stage != PublishStage::Mapping {
                *final(self) == *old(self) && r is OutOfTurn
            } else if mapping is Some {
                *final(self) == (PublishRun {
                    stage: PublishStage::Source,
                    baseline: mapping,
                    ..*old(self)
                }) && (r matches PublishAction::ReadSource { name } && name@ == source_ref(
                    held_mapping(mapping),
                    old(self).view@,
                ))
            } else {
                *final(self) == (PublishRun { stage: PublishStage::Tip, ..*old(self) }) && (
                r matches PublishAction::ReadTip { name } && text::opt_text(name)
                    == ref_mapping::policy_ref(
                    ViewScope::Draft,
                    old(self).view@,
                    old(self).ephemeral,
                ))
            },
    {
        if self.stage != PublishStage::Mapping {
            return PublishAction::OutOfTurn;
        }
        match mapping {
            Some(m) => {
                self.baseline = Some(m);
                self.read_source()
            },
            None => {
                self.stage = PublishStage::Tip;
                let name = mapped_ref_tip_name(None, ViewScope::Draft, &self.view, self.ephemeral);
                PublishAction::ReadTip { name }
            },
        }
    }

    /// The tip of the view's ref was read: the first mapping is to be saved.
    pub fn tip_read(&mut self, tip: Option<&str>, view_id: u64) -> (r: PublishAction)
        requires
            old(self).wf(),
        ensures
            final(self).wf(),
            if old(self).stage != PublishStage::Tip {
                *final(self) == *old(self) && r is OutOfTurn
            } else {
                final(self)@ == (PublishView {
                    stage: PublishStage::Baseline,
                    baseline: Some(
                        ref_mapping::baseline_of(
                            view_id,
                            old(self).view@,
                            ViewScope::Draft,
                            old(self).ephemeral,
                            text::opt_str(tip),
                            old(self).state@,
                        ),
                    ),
                    ..old(self)@
                }) && r is SaveBaseline
            },
    {
        if self.stage != PublishStage::Tip {
            return PublishAction::OutOfTurn;
        }
        let first = baseline_mapping(
            view_id,
            &self.view,
            ViewScope::Draft,
            self.ephemeral,
            tip,
            &self.state,
        );
        self.baseline = Some(first);
        self.stage = PublishStage::Baseline;
        PublishAction::SaveBaseline
    }

    /// The first mapping is saved.
    pub fn baseline_saved(&mut self) -> (r: PublishAction)
        requires
            old(self).wf(),
        ensures
            final(self).wf(),
            if old(self).stage != PublishStage::Baseline {
                *final(self) == *old(self) && r is OutOfTurn
            } else {
                *final(self) == (PublishRun { stage: PublishStage::Source, ..*old(self) }) && (
                r matches PublishAction::ReadSource { name } && name@ == source_ref(
                    old(self)@.baseline,
                    old(self).view@,
                ))
            },
    {
        if self.stage != PublishStage::Baseline {
            return PublishAction::OutOfTurn;
        }
        self.read_source()
    }

    /// The commit to publish was read; there must be one.
    pub fn source_read(&mut self, commit: Option<&str>) -> (r: PublishAction)
        requires
            old(self).wf(),
        ensures
            final(self).wf(),
            if old(self).stage != PublishStage::Source {
                *final(self) == *old(self) && r is OutOfTurn
            } else {
                match commit {
                    None => refused(
                        old(self)@,
                        final(self)@,
                        r,
                        ref_mapping::source_refusal(old(self).view@, None, None)->0,
                    ),
                    Some(c) => final(self)@ == (PublishView {
                        stage: PublishStage::Checkpoint,
                        commit: c@,
                        ..old(self)@
                    }) && r is ReadCheckpoint,
                }
            },
    {
        if self.stage != PublishStage::Source {
            return PublishAction::OutOfTurn;
        }
        match commit {
            None => match publication_source(&self.view, None, None) {
                Err(e) => self.fail(e),
                Ok(_) => PublishAction::OutOfTurn,
            },
            Some(c) => {
                self.commit = c.to_owned();
                self.stage = PublishStage::Checkpoint;
                PublishAction::ReadCheckpoint
            },
        }
    }

    /// The verified checkpoint was read: it must name the view and the
    /// commit.
    pub fn checkpoint_read(&mut self, checkpoint: Option<Checkpoint>, view_id: u64) -> (r:
        PublishAction)
        requires
            old(self).wf(),
        ensures
            final(self).wf(),
            if old(self).stage != PublishStage::Checkpoint {
                *final(self) == *old(self) && r is OutOfTurn
            } else {
                match ref_mapping::source_refusal(
                    old(self).view@,
                    Some(old(self).commit@),
                    held_checkpoint(checkpoint),
                ) {
                    Some(m) => refused(old(self)@, final(self)@, r, m),
                    None => {
                        &&& final(self)@ == PublishView {
                            stage: PublishStage::Branch,
                            checkpoint: held_checkpoint(checkpoint),
                            mapping: Some(mapping_after(old(self)@, view_id)),
                            ..old(self)@
                        }
                        &&& r matches PublishAction::CreateBranch { name, commit } && name@
                            == published_ref(old(self).branch@) && commit@ == old(self).commit@
                    },
                }
            },
    {
        if self.stage != PublishStage::Checkpoint {
            return PublishAction::OutOfTurn;
        }
        let commit = match publication_source(
            &self.view,
            Some(self.commit.as_str()),
            checkpoint.as_ref(),
        ) {
            Err(e) => {
                return self.fail(e);
            },
            Ok(c) => c,
        };
        let mut name: String = "refs/heads/".to_owned();
        name.append(&self.branch);
        let mapping = match &self.baseline {
            Some(b) => Some(
                published_mapping(
                    b,
                    view_id,
                    &self.view,
                    ViewScope::Draft,
                    &name,
                    &commit,
                    &self.state,
                ),
            ),
            None => None,
        };
        self.mapping = mapping;
        self.checkpoint = checkpoint;
        self.stage = PublishStage::Branch;
        PublishAction::CreateBranch { name, commit }
    }

    /// The branch is there, and its mapping is saved.
    pub fn branch_created(&mut self) -> (r: PublishAction)
        requires
            old(self).wf(),
        ensures
            final(self).wf(),
            if old(self).stage != PublishStage::Branch {
                *final(self) == *old(self) && r is OutOfTurn
            } else {
                *final(self) == (PublishRun { stage: PublishStage::Done, ..*old(self) }) && (
                r matches PublishAction::Finish { notice } && notice@ == published_notice(
                    old(self)@,
                ))
            },
    {
        if self.stage != PublishStage::Branch {
            return PublishAction::OutOfTurn;
        }
        self.stage = PublishStage::Done;
        let mut notice: String = "Published draft view '".to_owned();
        notice.append(&self.view);
        notice.append("' on branch '");
        notice.append(&self.branch);
        notice.append("' at ");
        notice.append(&self.commit);
        notice.append("; the view remains a Draft in Atomic");
        PublishAction::Finish { notice }
    }
}

/// Nothing is written before the workspace is in order: neither the first
/// mapping of a view nor a branch is asked for unless the view is a draft,
/// the workspace was entered, its tree was clean, and the branch was vacant.
pub proof fn a_refused_workspace_changes_nothing(run: PublishRun)
    requires
        run.wf(),
        run.stage == PublishStage::Baseline || run.stage == PublishStage::Branch || run.stage
            == PublishStage::Done,
    ensures
        run.scope == Some(ViewScope::Draft),
        run.entered,
        run.clean,
        run.vacant,
{
}

/// What is published is verified: a branch is created only at the commit
/// that the verified checkpoint names, for the view that it names, and the
/// mapping that is saved with it says so.
pub proof fn only_the_verified_commit_is_published(run: PublishRun)
    requires
        run.wf(),
        run.stage == PublishStage::Branch || run.stage == PublishStage::Done,
    ensures
        run.checkpoint matches Some(c) && c.view@ == run.view@ && c.git_head@ == run.commit@,
        run.mapping matches Some(m) && m@.local_ref == Some(published_ref(run.branch@))
            && m@.last_exported == Some(run.commit@) && m@.scope == ViewScope::Draft,
{
}

} // verus!
