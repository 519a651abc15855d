//! The run of a projection: how the state of a view becomes a Git commit
//! under its ref, and what has to hold before anything becomes visible.
use crate::error::CliError;
use crate::push::GitHashAlgorithm;
use crate::ref_mapping::ViewScope;
use crate::shadow;
use crate::shadow::{
    confirm_projection, confirm_snapshot, projection_parent, publish_projection, recovery_of,
    refuse_conflict_markers, resolve_conflict_export, stage_and_validate_tree, start_projection,
    target_ref, ConflictExport, ConflictMarker, ConflictMarkerPolicy, FailureRecovery, HeadPolicy,
    ProjectionParent, ProjectionPlan, ProjectionStart, PublicationEvidence,
};
use crate::text;
use crate::text::{join, to_decimal};
use vstd::prelude::*;

verus! {

/// How far a projection has come: what it waits for.
#[derive(Clone, Copy, Debug, PartialEq, Eq, Structural)]
pub enum ProjectionStage {
    /// Whether the view has unresolved conflicts.
    Export,
    /// The snapshot of the conflicts.
    Snapshot,
    /// The conflict markers of a clean state.
    Markers,
    /// The verified tree.
    Verify,
    /// The adopted commit of an ephemeral view.
    Adopted,
    /// A fresh observation before the adopted commit is retained.
    RetainLeases,
    /// The journaled retention of the adopted commit.
    Retain,
    /// The journaled objects of the tree.
    Objects,
    /// The conflict markers and paths of the staged tree.
    Staging,
    /// A fresh observation before the commit is built.
    Leases,
    /// The commit to build on.
    Parent,
    /// The commit.
    Commit,
    /// The journaled publication.
    Publish,
    /// Nothing: the run is over.
    Done,
}

/// What is to be done next.
#[derive(Debug)]
pub enum ProjectionAction {
    /// Find out whether the view has unresolved conflicts.
    CaptureConflicts,
    /// Prepare a tree in which the conflicts stand as markers.
    PrepareSnapshot,
    /// Look for conflict markers.
    FindMarkers,
    /// Verify the tree of the view, or that of its conflict snapshot.
    VerifyTree { snapshot: bool },
    /// Read the commit that an ephemeral view adopted.
    ReadAdopted { original: String },
    /// Observe anew what was verified.
    Reobserve,
    /// Journal and write the objects of the tree.
    JournalObjects,
    /// Look for conflict markers and forbidden paths in the tree.
    StageTree,
    /// Read what this ref is at, and what a projection could else build on.
    ReadParent { target: String },
    /// Build a commit on this parent.
    BuildCommit { parent: String },
    /// Journal these effects and let them become visible.
    Journal { plan: ProjectionPlan },
    /// The run is over, with what the user is warned of.
    Finish { warning: Option<String> },
    /// The run failed.
    Fail { error: CliError },
    /// The run does not wait for this.
    OutOfTurn,
}

/// A projection that is under way.
#[derive(Debug)]
pub struct ProjectionRun {
    pub view: String,
    pub policy: HeadPolicy,
    pub stage: ProjectionStage,
    pub export: ConflictExport,
    /// What was verified.
    pub evidence: Option<PublicationEvidence>,
    /// The effects that retain an adopted commit.
    pub retained: Option<ProjectionPlan>,
    /// The staged tree.
    pub tree: String,
    /// Whether the publication is journaled.
    pub journaled: bool,
}

/// Whether a projection can come from one stage to another in one step.
pub open spec fn leads_to(a: ProjectionStage, b: ProjectionStage) -> bool {
    ||| b == ProjectionStage::Done
    ||| a == ProjectionStage::Export && (b == ProjectionStage::Snapshot || b
        == ProjectionStage::Markers)
    ||| a == ProjectionStage::Snapshot && b == ProjectionStage::Verify
    ||| a == ProjectionStage::Markers && b == ProjectionStage::Verify
    ||| a == ProjectionStage::Verify && (b == ProjectionStage::Adopted || b
        == ProjectionStage::Objects)
    ||| a == ProjectionStage::Adopted && (b == ProjectionStage::RetainLeases || b
        == ProjectionStage::Objects)
    ||| a == ProjectionStage::RetainLeases && b == ProjectionStage::Retain
    ||| a == ProjectionStage::Objects && b == ProjectionStage::Staging
    ||| a == ProjectionStage::Staging && b == ProjectionStage::Leases
    ||| a == ProjectionStage::Leases && b == ProjectionStage::Parent
    ||| a == ProjectionStage::Parent && (b == ProjectionStage::Commit || b
        == ProjectionStage::Publish)
    ||| a == ProjectionStage::Commit && b == ProjectionStage::Publish
}

/// Whether a run came from `a` to `b` by one event, or stayed as it was.
pub open spec fn proceeded(a: ProjectionRun, b: ProjectionRun, r: ProjectionAction) -> bool {
    &&& r is OutOfTurn ==> b == a
    &&& r !is OutOfTurn ==> {
        &&& b.view == a.view && b.policy == a.policy
        &&& leads_to(a.stage, b.stage)
        &&& b.stage == ProjectionStage::Done <==> r is Finish || r is Fail
        &&& r is Fail ==> moved(a, b, ProjectionStage::Done)
        &&& a.stage != ProjectionStage::Publish ==> b.journaled == a.journaled
        &&& a.evidence is Some ==> b.evidence == a.evidence
    }
}

/// Whether only the stage changed from `a` to `b`.
pub open spec fn moved(a: ProjectionRun, b: ProjectionRun, stage: ProjectionStage) -> bool {
    b == ProjectionRun { stage, ..a }
}

/// Whether the run comes to build a commit on `parent`.
pub open spec fn builds_on(
    a: ProjectionRun,
    b: ProjectionRun,
    r: ProjectionAction,
    parent: Seq<char>,
) -> bool {
    &&& moved(a, b, ProjectionStage::Commit)
    &&& r matches ProjectionAction::BuildCommit { parent: p } && p@ == parent
}

/// Whether the run ended with the Git error `m`.
pub open spec fn stopped(r: ProjectionAction, m: Seq<char>) -> bool {
    r matches ProjectionAction::Fail { error } && error.is_git_error(m)
}

/// What the user is warned of after a projection with conflicts.
pub open spec fn snapshot_warning(
    view: Seq<char>,
    paths: Seq<Seq<char>>,
    set_hash: Seq<char>,
) -> Seq<char> {
    "committed Atomic conflict snapshot on '"@ + view + "': "@ + text::decimal(paths.len())
        + " conflicted path(s) ("@ + text::joined(paths, ", "@) + "), conflict set "@ + set_hash
        + " — the conflict remains unresolved in Atomic; resolve it (or use an Atomic remote/binding pack to restore it)"@
}

/// The first conflict marker: that of the working copy, or else the recorded
/// one.
pub open spec fn first_marker<'a>(
    working_copy: Option<&'a ConflictMarker>,
    recorded: Option<&'a ConflictMarker>,
) -> Option<&'a ConflictMarker> {
    match working_copy {
        Some(m) => Some(m),
        None => recorded,
    }
}

impl ProjectionRun {
    /// Whether what was verified is at hand where it is needed, and agrees
    /// with what is about to become visible.
    pub open spec fn wf(&self) -> bool {
        &&& self.journaled ==> self.stage == ProjectionStage::Done
        &&& self.stage == ProjectionStage::Export || self.stage == ProjectionStage::Snapshot
            || self.stage == ProjectionStage::Markers || self.stage == ProjectionStage::Verify
            ==> self.evidence is None
        &&& self.stage == ProjectionStage::Adopted || self.stage == ProjectionStage::RetainLeases
            || self.stage == ProjectionStage::Objects || self.stage == ProjectionStage::Staging
            || self.stage == ProjectionStage::Leases || self.stage == ProjectionStage::Parent
            || self.stage == ProjectionStage::Commit ==> self.evidence is Some
        &&& self.stage == ProjectionStage::Leases || self.stage == ProjectionStage::Parent
            ==> self.evidence->0.git_tree@ == self.tree@
        &&& self.stage == ProjectionStage::Commit ==> self.evidence->0.view@ == self.view@
            && self.evidence->0.git_tree@ == self.tree@
        &&& self.stage == ProjectionStage::RetainLeases ==> self.policy@ is Ephemeral && (
        self.retained matches Some(p) && exists|commit: Seq<char>|
            p@ == #[trigger] shadow::retained_plan(
                self.policy@,
                self.view@,
                commit,
                self.evidence->0.git_tree@,
            ))
    }

    /// Start the projection of a view to where its policy says.
    pub fn begin(view: String, policy: HeadPolicy) -> (r: (ProjectionRun, ProjectionAction))
        ensures
            r.0.wf(),
            r.0.view == view,
            r.0.policy == policy,
            r.0.stage == ProjectionStage::Export,
            r.0.evidence is None,
            r.0.retained is None,
            !r.0.journaled,
            r.1 is CaptureConflicts,
    {
        let run = ProjectionRun {
            view,
            policy,
            stage: ProjectionStage::Export,
            export: ConflictExport::Clean,
            evidence: None,
            retained: None,
            tree: String::new(),
            journaled: false,
        };
        (run, ProjectionAction::CaptureConflicts)
    }

    fn fail(&mut self, error: CliError) -> (r: ProjectionAction)
        ensures
            *final(self) == (ProjectionRun { stage: ProjectionStage::Done, ..*old(self) }),
            r == (ProjectionAction::Fail { error }),
    {
        self.stage = ProjectionStage::Done;
        ProjectionAction::Fail { error }
    }

    /// What was to be done outside failed: the run is over.
    pub fn failed(&mut self, error: CliError) -> (r: ProjectionAction)
        ensures
            final(self).wf(),
            proceeded(*old(self), *final(self), r),
            if old(self).stage == ProjectionStage::Done {
                r is OutOfTurn
            } else {
                r == (ProjectionAction::Fail { error })
            },
    {
        if self.stage == ProjectionStage::Done {
            return ProjectionAction::OutOfTurn;
        }
        self.fail(error)
    }

    /// What becomes of the captured Git state where the run failed.
    pub fn recovery(&self) -> (r: FailureRecovery)
        ensures
            r == (if self.journaled {
                FailureRecovery::LeaveToJournal
            } else {
                FailureRecovery::RestoreSnapshot
            }),
    {
        recovery_of(self.journaled)
    }

    /// The conflicts of the view are known: their number, where there are
    /// any.
    pub fn conflicts_captured(
        &mut self,
        entries: Option<u64>,
        scope: ViewScope,
        allow_conflicts: bool,
    ) -> (r: ProjectionAction)
        requires
            old(self).wf(),
        ensures
            final(self).wf(),
            proceeded(*old(self), *final(self), r),
            if old(self).stage != ProjectionStage::Export {
                r is OutOfTurn
            } else {
                match entries {
                    None => r is FindMarkers && *final(self) == (ProjectionRun {
                        stage: ProjectionStage::Markers,
                        export: ConflictExport::Clean,
                        ..*old(self)
                    }),
                    Some(n) => if scope == ViewScope::Shared && !allow_conflicts {
                        r matches ProjectionAction::Fail { error } && error.is_invalid_operation(
                            shadow::shared_conflict_message(old(self).view@, n as nat),
                        )
                    } else {
                        r is PrepareSnapshot && *final(self) == (ProjectionRun {
                            stage: ProjectionStage::Snapshot,
                            export: ConflictExport::Snapshot,
                            ..*old(self)
                        })
                    },
                }
            },
    {
        if self.stage != ProjectionStage::Export {
            return ProjectionAction::OutOfTurn;
        }
        match resolve_conflict_export(&self.view, entries, scope, allow_conflicts) {
            Ok(ConflictExport::Clean) => {
                self.export = ConflictExport::Clean;
                self.stage = ProjectionStage::Markers;
                ProjectionAction::FindMarkers
            },
            Ok(ConflictExport::Snapshot) => {
                self.export = ConflictExport::Snapshot;
                self.stage = ProjectionStage::Snapshot;
                ProjectionAction::PrepareSnapshot
            },
            Err(e) => self.fail(e),
        }
    }

    /// The snapshot was prepared; `agrees` tells whether it is of the
    /// conflicts that were captured.
    pub fn snapshot_prepared(&mut self, agrees: bool) -> (r: ProjectionAction)
        requires
            old(self).wf(),
        ensures
            final(self).wf(),
            proceeded(*old(self), *final(self), r),
            if old(self).stage != ProjectionStage::Snapshot {
                r is OutOfTurn
            } else if agrees {
                r == (ProjectionAction::VerifyTree { snapshot: true }) && moved(*old(self), *final(self), ProjectionStage::Verify)
            } else {
                stopped(
                    r,
                    "conflict snapshot preparation disagreed with the captured conflict state"@,
                )
            },
    {
        if self.stage != ProjectionStage::Snapshot {
            return ProjectionAction::OutOfTurn;
        }
        match confirm_snapshot(agrees) {
            Ok(_) => {
                self.stage = ProjectionStage::Verify;
                ProjectionAction::VerifyTree { snapshot: true }
            },
            Err(e) => self.fail(e),
        }
    }

    /// The conflict markers of a clean state were looked for.
    pub fn markers_found(
        &mut self,
        working_copy: Option<&ConflictMarker>,
        recorded: Option<&ConflictMarker>,
    ) -> (r: ProjectionAction)
        requires
            old(self).wf(),
        ensures
            final(self).wf(),
            proceeded(*old(self), *final(self), r),
            if old(self).stage != ProjectionStage::Markers {
                r is OutOfTurn
            } else {
                match first_marker(working_copy, recorded) {
                    Some(m) => stopped(r, shadow::marker_message(m.path@, m.line as nat)),
                    None => r == (ProjectionAction::VerifyTree { snapshot: false }) && moved(
                        *old(self),
                        *final(self),
                        ProjectionStage::Verify,
                    ),
                }
            },
    {
        if self.stage != ProjectionStage::Markers {
            return ProjectionAction::OutOfTurn;
        }
        match refuse_conflict_markers(working_copy, recorded) {
            Ok(_) => {
                self.stage = ProjectionStage::Verify;
                ProjectionAction::VerifyTree { snapshot: false }
            },
            Err(e) => self.fail(e),
        }
    }

    /// The tree was verified. The adopted commit of a clean ephemeral view is
    /// looked at first.
    pub fn tree_verified(&mut self, evidence: PublicationEvidence) -> (r: ProjectionAction)
        requires
            old(self).wf(),
        ensures
            final(self).wf(),
            proceeded(*old(self), *final(self), r),
            if old(self).stage != ProjectionStage::Verify {
                r is OutOfTurn
            } else {
                let adopts = old(self).policy@ is Ephemeral && old(self).export
                    == ConflictExport::Clean;
                &&& *final(self) == ProjectionRun {
                    stage: if adopts {
                        ProjectionStage::Adopted
                    } else {
                        ProjectionStage::Objects
                    },
                    evidence: Some(evidence),
                    ..*old(self)
                }
                &&& if adopts {
                    r matches ProjectionAction::ReadAdopted { original } && original@ == old(
                        self,
                    ).policy@->original
                } else {
                    r is JournalObjects
                }
            },
    {
        if self.stage != ProjectionStage::Verify {
            return ProjectionAction::OutOfTurn;
        }
        self.evidence = Some(evidence);
        let adopted: Option<String> = match &self.policy {
            HeadPolicy::Ephemeral { original } => Some(original.clone()),
            _ => None,
        };
        if self.export == ConflictExport::Clean {
            if let Some(original) = adopted {
                self.stage = ProjectionStage::Adopted;
                return ProjectionAction::ReadAdopted { original };
            }
        }
        self.stage = ProjectionStage::Objects;
        ProjectionAction::JournalObjects
    }

    /// The adopted commit of an ephemeral view was read: it is retained while
    /// it has the verified tree.
    pub fn adopted_read(&mut self, commit: &str, tree: &str) -> (r: ProjectionAction)
        requires
            old(self).wf(),
        ensures
            final(self).wf(),
            proceeded(*old(self), *final(self), r),
            if old(self).stage != ProjectionStage::Adopted {
                r is OutOfTurn
            } else if old(self).evidence->0.algorithm == GitHashAlgorithm::Sha256 {
                stopped(r, shadow::unsupported_tree_message())
            } else if old(self).policy@ is Ephemeral && old(self).export == ConflictExport::Clean
                && tree@ == old(self).evidence->0.git_tree@ {
                &&& r is Reobserve
                &&& *final(self) == ProjectionRun {
                    stage: ProjectionStage::RetainLeases,
                    retained: final(self).retained,
                    ..*old(self)
                }
                &&& final(self).retained matches Some(p) && p@ == shadow::retained_plan(
                    old(self).policy@,
                    old(self).view@,
                    commit@,
                    tree@,
                )
            } else {
                r is JournalObjects && moved(*old(self), *final(self), ProjectionStage::Objects)
            },
    {
        if self.stage != ProjectionStage::Adopted {
            return ProjectionAction::OutOfTurn;
        }
        if let Some(e) = &self.evidence {
            let verified = match e.git_tree_oid() {
                Ok(t) => t,
                Err(error) => {
                    return self.fail(error);
                },
            };
            if let ProjectionStart::Retain(plan) = start_projection(
                &self.policy,
                &self.view,
                self.export,
                Some((commit, tree)),
                &verified,
            ) {
                self.retained = Some(plan);
                self.stage = ProjectionStage::RetainLeases;
                return ProjectionAction::Reobserve;
            }
        }
        self.stage = ProjectionStage::Objects;
        ProjectionAction::JournalObjects
    }

    /// The objects of the tree are journaled and written.
    pub fn objects_journaled(&mut self) -> (r: ProjectionAction)
        requires
            old(self).wf(),
        ensures
            final(self).wf(),
            proceeded(*old(self), *final(self), r),
            old(self).stage != ProjectionStage::Objects ==> r is OutOfTurn,
            old(self).stage == ProjectionStage::Objects ==> r is StageTree && moved(
                *old(self),
                *final(self),
                ProjectionStage::Staging,
            ),
    {
        if self.stage != ProjectionStage::Objects {
            return ProjectionAction::OutOfTurn;
        }
        self.stage = ProjectionStage::Staging;
        ProjectionAction::StageTree
    }

    /// The conflict markers and the paths of the tree are known. Only a
    /// conflict snapshot may hold markers.
    pub fn tree_staged(
        &mut self,
        working_copy: Option<&ConflictMarker>,
        recorded: Option<&ConflictMarker>,
        staged: &Vec<String>,
    ) -> (r: ProjectionAction)
        requires
            old(self).wf(),
        ensures
            final(self).wf(),
            proceeded(*old(self), *final(self), r),
            ({
                let marker = if old(self).export == ConflictExport::Clean {
                    first_marker(working_copy, recorded)
                } else {
                    None
                };
                if old(self).stage != ProjectionStage::Staging {
                    r is OutOfTurn
                } else {
                    match marker {
                        Some(m) => stopped(r, shadow::marker_message(m.path@, m.line as nat)),
                        None => match shadow::first_forbidden(text::texts(staged@)) {
                            Some(p) => stopped(r, shadow::forbidden_message(p)),
                            None => match old(self).evidence->0.algorithm {
                                GitHashAlgorithm::Sha1 => r is Reobserve && *final(self) == (
                                ProjectionRun {
                                    stage: ProjectionStage::Leases,
                                    tree: final(self).tree,
                                    ..*old(self)
                                }) && final(self).tree@ == old(self).evidence->0.git_tree@,
                                GitHashAlgorithm::Sha256 => stopped(
                                    r,
                                    shadow::unsupported_tree_message(),
                                ),
                            },
                        },
                    }
                }
            }),
    {
        if self.stage != ProjectionStage::Staging {
            return ProjectionAction::OutOfTurn;
        }
        let policy = match self.export {
            ConflictExport::Clean => ConflictMarkerPolicy::Refuse,
            ConflictExport::Snapshot => ConflictMarkerPolicy::AllowExplicitly,
        };
        let checked = match &self.evidence {
            Some(e) => stage_and_validate_tree(e, policy, working_copy, recorded, staged),
            None => {
                return ProjectionAction::OutOfTurn;
            },
        };
        match checked {
            Ok(tree) => {
                self.tree = tree;
                self.stage = ProjectionStage::Leases;
                ProjectionAction::Reobserve
            },
            Err(e) => self.fail(e),
        }
    }

    /// What was verified was observed anew: the adopted commit is retained,
    /// or the commit to build on is asked for.
    pub fn leases_observed(&mut self, current: &PublicationEvidence) -> (r: ProjectionAction)
        requires
            old(self).wf(),
        ensures
            final(self).wf(),
            proceeded(*old(self), *final(self), r),
            ({
                let waits = old(self).stage == ProjectionStage::RetainLeases || old(self).stage
                    == ProjectionStage::Leases;
                if !waits {
                    r is OutOfTurn
                } else if !shadow::same_leases(*current, old(self).evidence->0) {
                    stopped(r, shadow::stale_publication_message())
                } else if old(self).stage == ProjectionStage::RetainLeases {
                    &&& *final(self) == ProjectionRun {
                        stage: ProjectionStage::Retain,
                        retained: None,
                        ..*old(self)
                    }
                    &&& r matches ProjectionAction::Journal { plan } && plan@ == old(
                        self,
                    ).retained->0@
                } else {
                    &&& moved(*old(self), *final(self), ProjectionStage::Parent)
                    &&& r matches ProjectionAction::ReadParent { target } && target@
                        == shadow::projection_ref(old(self).policy@, old(self).view@)
                }
            }),
    {
        if self.stage != ProjectionStage::RetainLeases && self.stage != ProjectionStage::Leases {
            return ProjectionAction::OutOfTurn;
        }
        let fresh: Result<(), CliError> = match &self.evidence {
            Some(e) => e.reobserve(current),
            None => Ok(()),
        };
        if let Err(e) = fresh {
            return self.fail(e);
        }
        if self.stage == ProjectionStage::RetainLeases {
            let plan = self.retained.take();
            if let Some(plan) = plan {
                self.stage = ProjectionStage::Retain;
                return ProjectionAction::Journal { plan };
            }
        }
        self.stage = ProjectionStage::Parent;
        ProjectionAction::ReadParent { target: target_ref(&self.policy, &self.view) }
    }

    /// What the projection can build on was read: the tip of its ref with
    /// its tree, and the adopted and the current commit or why they cannot be
    /// read. The adopted commit counts for an ephemeral view alone.
    pub fn parent_read(
        &mut self,
        tip: Option<(&str, &str)>,
        adopted: Result<&str, &str>,
        head: Result<&str, &str>,
    ) -> (r: ProjectionAction)
        requires
            old(self).wf(),
        ensures
            final(self).wf(),
            proceeded(*old(self), *final(self), r),
            ({
                let e = old(self).evidence->0;
                if old(self).stage != ProjectionStage::Parent {
                    r is OutOfTurn
                } else if e.view@ != old(self).view@ {
                    stopped(r, "shadow projection does not match verified publication"@)
                } else {
                    match tip {
                        Some((commit, commit_tree)) => if commit_tree@ == old(self).tree@ {
                            &&& moved(*old(self), *final(self), ProjectionStage::Publish)
                            &&& r matches ProjectionAction::Journal { plan } && plan@
                                == shadow::published_plan(
                                old(self).policy@,
                                old(self).view@,
                                commit@,
                                old(self).tree@,
                                false,
                            )
                        } else {
                            builds_on(*old(self), *final(self), r, commit@)
                        },
                        None => match shadow::default_parent(
                            old(self).policy@,
                            old(self).view@,
                            shadow::read_text(adopted),
                            shadow::read_text(head),
                        ) {
                            Ok(p) => builds_on(*old(self), *final(self), r, p),
                            Err(m) => stopped(r, m),
                        },
                    }
                }
            }),
    {
        if self.stage != ProjectionStage::Parent {
            return ProjectionAction::OutOfTurn;
        }
        let confirmed: Result<(), CliError> = match &self.evidence {
            Some(e) => confirm_projection(&e.view, &e.git_tree, &self.view, &self.tree),
            None => Ok(()),
        };
        if let Err(e) = confirmed {
            return self.fail(e);
        }
        match projection_parent(&self.view, &self.policy, tip, adopted, head, &self.tree) {
            Ok(ProjectionParent::AlreadyProjected(commit)) => {
                self.stage = ProjectionStage::Publish;
                ProjectionAction::Journal {
                    plan: publish_projection(
                        &self.policy,
                        &self.view,
                        &commit,
                        &self.tree,
                        false,
                    ),
                }
            },
            Ok(ProjectionParent::Parent(parent)) => {
                self.stage = ProjectionStage::Commit;
                ProjectionAction::BuildCommit { parent }
            },
            Err(e) => self.fail(e),
        }
    }

    /// The commit was built: it is published as a whole.
    pub fn commit_built(&mut self, commit: &str) -> (r: ProjectionAction)
        requires
            old(self).wf(),
        ensures
            final(self).wf(),
            proceeded(*old(self), *final(self), r),
            if old(self).stage != ProjectionStage::Commit {
                r is OutOfTurn
            } else {
                &&& moved(*old(self), *final(self), ProjectionStage::Publish)
                &&& r matches ProjectionAction::Journal { plan } && plan@ == shadow::published_plan(
                    old(self).policy@,
                    old(self).view@,
                    commit@,
                    old(self).evidence->0.git_tree@,
                    true,
                )
            },
    {
        if self.stage != ProjectionStage::Commit {
            return ProjectionAction::OutOfTurn;
        }
        self.stage = ProjectionStage::Publish;
        ProjectionAction::Journal {
            plan: publish_projection(&self.policy, &self.view, commit, &self.tree, true),
        }
    }

    /// The effects became visible. The conflicts of a snapshot are named:
    /// they remain unresolved.
    pub fn effects_journaled(&mut self, conflicted: &Vec<String>, set_hash: &str) -> (r:
        ProjectionAction)
        requires
            old(self).wf(),
        ensures
            final(self).wf(),
            proceeded(*old(self), *final(self), r),
            if old(self).stage == ProjectionStage::Retain {
                r == (ProjectionAction::Finish { warning: None }) && moved(*old(self), *final(self), ProjectionStage::Done)
            } else if old(self).stage == ProjectionStage::Publish {
                &&& *final(self) == ProjectionRun {
                    stage: ProjectionStage::Done,
                    journaled: true,
                    ..*old(self)
                }
                &&& r matches ProjectionAction::Finish { warning } && text::opt_text(warning) == (
                if old(self).export == ConflictExport::Clean {
                    None
                } else {
                    Some(snapshot_warning(old(self).view@, text::texts(conflicted@), set_hash@))
                })
            } else {
                r is OutOfTurn
            },
    {
        if self.stage == ProjectionStage::Retain {
            self.stage = ProjectionStage::Done;
            return ProjectionAction::Finish { warning: None };
        }
        if self.stage != ProjectionStage::Publish {
            return ProjectionAction::OutOfTurn;
        }
        self.journaled = true;
        self.stage = ProjectionStage::Done;
        if self.export == ConflictExport::Clean {
            return ProjectionAction::Finish { warning: None };
        }
        assert(text::texts(conflicted@).len() == conflicted@.len());
        let mut m: String = "committed Atomic conflict snapshot on '".to_owned();
        m.append(&self.view);
        m.append("': ");
        m.append(&to_decimal(conflicted.len() as u64));
        m.append(" conflicted path(s) (");
        m.append(&join(conflicted, ", "));
        m.append("), conflict set ");
        m.append(set_hash);
        m.append(
            " — the conflict remains unresolved in Atomic; resolve it (or use an Atomic remote/binding pack to restore it)",
        );
        ProjectionAction::Finish { warning: Some(m) }
    }
}

/// The stages that a projection goes through, from its start.
pub open spec fn is_projection(stages: Seq<ProjectionStage>) -> bool {
    &&& stages.len() > 0
    &&& stages[0] == ProjectionStage::Export
    &&& forall|i: int, j: int|
        0 <= i && j == i + 1 && j < stages.len() ==> leads_to(
            #[trigger] stages[i],
            #[trigger] stages[j],
        )
}

/// Whether a projection has been at a stage.
pub open spec fn visited(stages: Seq<ProjectionStage>, n: int, s: ProjectionStage) -> bool {
    exists|i: int| 0 <= i <= n && stages[i] == s
}

/// Nothing becomes visible unverified: where effects are journaled, the
/// conflicts were resolved or prepared, the tree was verified, and what was
/// verified was observed anew. A commit that is built was staged, too.
pub proof fn nothing_becomes_visible_unverified(stages: Seq<ProjectionStage>, n: int)
    requires
        is_projection(stages),
        0 <= n < stages.len(),
    ensures
        stages[n] == ProjectionStage::Retain || stages[n] == ProjectionStage::Publish ==> visited(
            stages,
            n,
            ProjectionStage::Export,
        ) && visited(stages, n, ProjectionStage::Verify) && (visited(
            stages,
            n,
            ProjectionStage::Markers,
        ) || visited(stages, n, ProjectionStage::Snapshot)),
        stages[n] == ProjectionStage::Retain ==> visited(stages, n, ProjectionStage::Adopted)
            && visited(stages, n, ProjectionStage::RetainLeases),
        stages[n] == ProjectionStage::Publish ==> visited(stages, n, ProjectionStage::Objects)
            && visited(stages, n, ProjectionStage::Staging) && visited(
            stages,
            n,
            ProjectionStage::Leases,
        ),
{
    lemma_visited(stages, n);
}

/// Whether a projection has been at the stages that come before the one that
/// it is at.
pub open spec fn got_through(stages: Seq<ProjectionStage>, n: int) -> bool {
    let s = stages[n];
    let prepared = visited(stages, n, ProjectionStage::Markers) || visited(
        stages,
        n,
        ProjectionStage::Snapshot,
    );
    let verified = prepared && visited(stages, n, ProjectionStage::Verify);
    let staged = verified && visited(stages, n, ProjectionStage::Objects) && visited(
        stages,
        n,
        ProjectionStage::Staging,
    ) && visited(stages, n, ProjectionStage::Leases);
    match s {
        ProjectionStage::Done => true,
        _ => {
            &&& visited(stages, n, ProjectionStage::Export)
            &&& s == ProjectionStage::Snapshot || s == ProjectionStage::Markers || s
                == ProjectionStage::Verify ==> prepared
            &&& s == ProjectionStage::Verify || s == ProjectionStage::Adopted || s
                == ProjectionStage::Objects || s == ProjectionStage::Staging || s
                == ProjectionStage::Leases ==> verified
            &&& s == ProjectionStage::RetainLeases || s == ProjectionStage::Retain ==> verified
                && visited(stages, n, ProjectionStage::Adopted) && visited(
                stages,
                n,
                ProjectionStage::RetainLeases,
            )
            &&& s == ProjectionStage::Staging || s == ProjectionStage::Leases ==> visited(
                stages,
                n,
                ProjectionStage::Objects,
            )
            &&& s == ProjectionStage::Leases ==> visited(stages, n, ProjectionStage::Staging)
            &&& s == ProjectionStage::Parent || s == ProjectionStage::Commit || s
                == ProjectionStage::Publish ==> staged
        },
    }
}

proof fn lemma_visited(stages: Seq<ProjectionStage>, n: int)
    requires
        is_projection(stages),
        0 <= n < stages.len(),
    ensures
        got_through(stages, n),
    decreases n,
{
    assert(visited(stages, n, stages[n]));
    if n > 0 {
        lemma_visited(stages, n - 1);
        assert(leads_to(stages[n - 1], stages[n]));
        assert forall|s: ProjectionStage| visited(stages, n - 1, s) implies visited(
            stages,
            n,
            s,
        ) by {
            let i = choose|i: int| 0 <= i <= n - 1 && stages[i] == s;
            assert(0 <= i <= n && stages[i] == s);
        }
    }
}

/// What every event does to a projection is a step of its course.
pub proof fn events_make_a_projection(
    stages: Seq<ProjectionStage>,
    a: ProjectionRun,
    b: ProjectionRun,
    r: ProjectionAction,
)
    requires
        is_projection(stages),
        stages.last() == a.stage,
        proceeded(a, b, r),
        r !is OutOfTurn,
    ensures
        is_projection(stages.push(b.stage)),
{
    let longer = stages.push(b.stage);
    assert forall|i: int, j: int| 0 <= i && j == i + 1 && j < longer.len() implies leads_to(
        #[trigger] longer[i],
        #[trigger] longer[j],
    ) by {
        if j < stages.len() {
            assert(leads_to(stages[i], stages[j]));
        }
    }
}

/// The publication counts as journaled only once it is: a projection that
/// fails is not, so that what was captured of Git is restored.
pub proof fn failures_are_restored(a: ProjectionRun, b: ProjectionRun, r: ProjectionAction)
    requires
        a.wf(),
        a.stage != ProjectionStage::Done,
        proceeded(a, b, r),
    ensures
        b.journaled ==> a.stage == ProjectionStage::Publish && r is Finish,
        r is Fail ==> !b.journaled,
{
}

} // verus!
