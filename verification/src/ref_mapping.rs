//! The persisted mapping between views and Git refs: how it is built,
//! refreshed, published and reported.
use crate::error::{git_error, CliError};
use crate::text;
use crate::text::same_text;
use vstd::prelude::*;

verus! {

/// Whether a view is shared or a private draft.
#[derive(Clone, Copy, Debug, PartialEq, Eq, Structural)]
pub enum ViewScope {
    Shared,
    Draft,
}

/// How a view and its Git ref stand to each other.
#[derive(Clone, Copy, Debug, PartialEq, Eq, Structural)]
pub enum RefSyncStatus {
    Synchronized,
    GitAhead,
    AtomicAhead,
    Diverged,
    Unrepresentable,
}

/// A remote and the ref on it that a view tracks.
#[derive(Debug)]
pub struct RemotePair {
    pub remote: String,
    pub reference: String,
}

/// The remote and its ref as text.
pub open spec fn opt_pair(o: Option<RemotePair>) -> Option<(Seq<char>, Seq<char>)> {
    match o {
        Some(p) => Some((p.remote@, p.reference@)),
        None => None,
    }
}

/// The mapping of one view.
#[derive(Debug)]
pub struct RefMapping {
    pub view_id: u64,
    pub view_name: String,
    pub scope: ViewScope,
    /// The local ref; none for a view without a ref of its own.
    pub local_ref: Option<String>,
    /// The tracked remote ref.
    pub remote: Option<RemotePair>,
    pub last_observed_local: Option<String>,
    pub last_observed_remote: Option<String>,
    pub last_exported: Option<String>,
    /// The view state that the last export was verified for.
    pub last_exported_state: Option<String>,
    pub last_observed_atomic: Option<String>,
    pub status: RefSyncStatus,
}

/// A `RefMapping` as a value.
#[verifier::ext_equal]
pub struct RefMappingView {
    pub view_id: u64,
    pub view_name: Seq<char>,
    pub scope: ViewScope,
    pub local_ref: Option<Seq<char>>,
    pub remote: Option<(Seq<char>, Seq<char>)>,
    pub last_observed_local: Option<Seq<char>>,
    pub last_observed_remote: Option<Seq<char>>,
    pub last_exported: Option<Seq<char>>,
    pub last_exported_state: Option<Seq<char>>,
    pub last_observed_atomic: Option<Seq<char>>,
    pub status: RefSyncStatus,
}

impl View for RefMapping {
    type V = RefMappingView;

    open spec fn view(&self) -> RefMappingView {
        RefMappingView {
            view_id: self.view_id,
            view_name: self.view_name@,
            scope: self.scope,
            local_ref: text::opt_text(self.local_ref),
            remote: opt_pair(self.remote),
            last_observed_local: text::opt_text(self.last_observed_local),
            last_observed_remote: text::opt_text(self.last_observed_remote),
            last_exported: text::opt_text(self.last_exported),
            last_exported_state: text::opt_text(self.last_exported_state),
            last_observed_atomic: text::opt_text(self.last_observed_atomic),
            status: self.status,
        }
    }
}

/// The view of an optional mapping.
pub open spec fn opt_mapping(o: Option<&RefMapping>) -> Option<RefMappingView> {
    match o {
        Some(m) => Some(m@),
        None => None,
    }
}

fn copy_text(o: &Option<String>) -> (r: Option<String>)
    ensures
        text::opt_text(r) == text::opt_text(*o),
{
    match o {
        Some(s) => Some(s.clone()),
        None => None,
    }
}

fn copy_pair(o: &Option<RemotePair>) -> (r: Option<RemotePair>)
    ensures
        opt_pair(r) == opt_pair(*o),
{
    match o {
        Some(p) => Some(
            RemotePair { remote: p.remote.clone(), reference: p.reference.clone() },
        ),
        None => None,
    }
}

fn owned(o: Option<&str>) -> (r: Option<String>)
    ensures
        text::opt_text(r) == text::opt_str(o),
{
    match o {
        Some(s) => Some(s.to_owned()),
        None => None,
    }
}

/// The ref that the scope policy gives a view: a branch for a shared view, a
/// private ref for a draft.
pub open spec fn scope_ref(scope: ViewScope, view: Seq<char>) -> Seq<char> {
    match scope {
        ViewScope::Shared => "refs/heads/"@ + view,
        ViewScope::Draft => "refs/atomic/views/"@ + view,
    }
}

/// The ref that the scope policy gives a view that is not ephemeral.
pub open spec fn policy_ref(scope: ViewScope, view: Seq<char>, ephemeral: bool) -> Option<
    Seq<char>,
> {
    if ephemeral {
        None
    } else {
        Some(scope_ref(scope, view))
    }
}

/// The ref that the scope policy gives a view.
pub fn mapped_local_ref(scope: ViewScope, view: &str) -> (r: String)
    ensures
        r@ == scope_ref(scope, view@),
{
    let mut m: String = match scope {
        ViewScope::Shared => "refs/heads/".to_owned(),
        ViewScope::Draft => "refs/atomic/views/".to_owned(),
    };
    m.append(view);
    m
}

/// The mapped local ref of a view under the scope policy; an ephemeral view
/// has no ref beyond its original commit.
pub fn mapped_ref_for_view(scope: ViewScope, view: &str, ephemeral: bool) -> (r: Option<String>)
    ensures
        text::opt_text(r) == policy_ref(scope, view@, ephemeral),
{
    if ephemeral {
        None
    } else {
        Some(mapped_local_ref(scope, view))
    }
}

/// The ref whose tip stands for a view: the persisted one where there is
/// one, else the one of the scope policy.
pub open spec fn effective_ref(
    previous: Option<RefMappingView>,
    scope: ViewScope,
    view: Seq<char>,
    ephemeral: bool,
) -> Option<Seq<char>> {
    match previous {
        Some(m) => match m.local_ref {
            Some(r) => Some(r),
            None => policy_ref(scope, view, ephemeral),
        },
        None => policy_ref(scope, view, ephemeral),
    }
}

/// The ref whose tip stands for a view.
pub fn mapped_ref_tip_name(
    previous: Option<&RefMapping>,
    scope: ViewScope,
    view: &str,
    ephemeral: bool,
) -> (r: Option<String>)
    ensures
        text::opt_text(r) == effective_ref(opt_mapping(previous), scope, view@, ephemeral),
{
    match previous {
        Some(m) => match &m.local_ref {
            Some(r) => Some(r.clone()),
            None => mapped_ref_for_view(scope, view, ephemeral),
        },
        None => mapped_ref_for_view(scope, view, ephemeral),
    }
}

/// The baseline of a view: both sides as they stand, nothing exported yet
/// for a verified state.
pub open spec fn baseline_of(
    view_id: u64,
    view: Seq<char>,
    scope: ViewScope,
    ephemeral: bool,
    tip: Option<Seq<char>>,
    state: Seq<char>,
) -> RefMappingView {
    RefMappingView {
        view_id,
        view_name: view,
        scope,
        local_ref: policy_ref(scope, view, ephemeral),
        remote: None,
        last_observed_local: tip,
        last_observed_remote: None,
        last_exported: tip,
        last_exported_state: None,
        last_observed_atomic: Some(state),
        status: RefSyncStatus::Synchronized,
    }
}

/// Build the synchronized baseline of a view from the live observation:
/// `tip` is the tip of its mapped ref, `state` its view state.
pub fn baseline_mapping(
    view_id: u64,
    view: &str,
    scope: ViewScope,
    ephemeral: bool,
    tip: Option<&str>,
    state: &str,
) -> (r: RefMapping)
    ensures
        r@ == baseline_of(view_id, view@, scope, ephemeral, text::opt_str(tip), state@),
{
    RefMapping {
        view_id,
        view_name: view.to_owned(),
        scope,
        local_ref: mapped_ref_for_view(scope, view, ephemeral),
        remote: None,
        last_observed_local: owned(tip),
        last_observed_remote: None,
        last_exported: owned(tip),
        last_exported_state: None,
        last_observed_atomic: Some(state.to_owned()),
        status: RefSyncStatus::Synchronized,
    }
}

/// The local ref of a refreshed mapping: none for an ephemeral view, else
/// the persisted one, else the one of the scope policy.
pub open spec fn refreshed_ref(
    previous: Option<RefMappingView>,
    scope: ViewScope,
    view: Seq<char>,
    ephemeral: bool,
) -> Option<Seq<char>> {
    if ephemeral {
        None
    } else {
        match previous {
            Some(m) => match m.local_ref {
                Some(r) => Some(r),
                None => Some(scope_ref(scope, view)),
            },
            None => Some(scope_ref(scope, view)),
        }
    }
}

/// The local ref of a refreshed mapping.
pub fn refreshed_local_ref(
    previous: Option<&RefMapping>,
    scope: ViewScope,
    view: &str,
    ephemeral: bool,
) -> (r: Option<String>)
    ensures
        text::opt_text(r) == refreshed_ref(opt_mapping(previous), scope, view@, ephemeral),
{
    if ephemeral {
        return None;
    }
    match previous {
        Some(m) => match &m.local_ref {
            Some(r) => Some(r.clone()),
            None => Some(mapped_local_ref(scope, view)),
        },
        None => Some(mapped_local_ref(scope, view)),
    }
}

/// The commit that was last exported, as it was known before.
pub open spec fn kept_exported(previous: Option<RefMappingView>) -> Option<Seq<char>> {
    match previous {
        Some(m) => m.last_exported,
        None => None,
    }
}

/// The state that was last exported, as it was known before.
pub open spec fn kept_exported_state(previous: Option<RefMappingView>) -> Option<Seq<char>> {
    match previous {
        Some(m) => m.last_exported_state,
        None => None,
    }
}

/// The remote of a mapping, as it was known before.
pub open spec fn kept_remote(previous: Option<RefMappingView>) -> Option<(Seq<char>, Seq<char>)> {
    match previous {
        Some(m) => m.remote,
        None => None,
    }
}

/// The remote tip, as it was last observed.
pub open spec fn kept_observed_remote(previous: Option<RefMappingView>) -> Option<Seq<char>> {
    match previous {
        Some(m) => m.last_observed_remote,
        None => None,
    }
}

/// The local tip, as it was last observed.
pub open spec fn kept_observed_local(previous: Option<RefMappingView>) -> Option<Seq<char>> {
    match previous {
        Some(m) => m.last_observed_local,
        None => None,
    }
}

/// The mapping after a fresh synchronized observation. The export binding is
/// renewed only from the verified tip of a real transition that is still the
/// live tip.
pub open spec fn refreshed_of(
    previous: Option<RefMappingView>,
    view_id: u64,
    view: Seq<char>,
    scope: ViewScope,
    ephemeral: bool,
    tip: Option<Seq<char>>,
    exported_tip: Option<Seq<char>>,
    state: Seq<char>,
) -> RefMappingView {
    let bound = exported_tip is Some && exported_tip == tip;
    RefMappingView {
        view_id,
        view_name: view,
        scope,
        local_ref: refreshed_ref(previous, scope, view, ephemeral),
        remote: kept_remote(previous),
        last_observed_local: tip,
        last_observed_remote: kept_observed_remote(previous),
        last_exported: if bound {
            exported_tip
        } else {
            kept_exported(previous)
        },
        last_exported_state: if bound {
            Some(state)
        } else {
            kept_exported_state(previous)
        },
        last_observed_atomic: Some(state),
        status: RefSyncStatus::Synchronized,
    }
}

/// Record a fresh synchronized observation for a view. `tip` is the live tip
/// of the ref that `refreshed_local_ref` names, `exported_tip` the verified
/// tip of a completed transition, if one took place.
pub fn refresh_mapping_observation(
    previous: Option<&RefMapping>,
    view_id: u64,
    view: &str,
    scope: ViewScope,
    ephemeral: bool,
    tip: Option<&str>,
    exported_tip: Option<&str>,
    state: &str,
) -> (r: RefMapping)
    ensures
        r@ == refreshed_of(
            opt_mapping(previous),
            view_id,
            view@,
            scope,
            ephemeral,
            text::opt_str(tip),
            text::opt_str(exported_tip),
            state@,
        ),
{
    let bound: bool = match (exported_tip, tip) {
        (Some(v), Some(t)) => same_text(v, t),
        _ => false,
    };
    let (last_exported, last_exported_state) = if bound {
        (owned(exported_tip), Some(state.to_owned()))
    } else {
        match previous {
            Some(m) => (copy_text(&m.last_exported), copy_text(&m.last_exported_state)),
            None => (None, None),
        }
    };
    RefMapping {
        view_id,
        view_name: view.to_owned(),
        scope,
        local_ref: refreshed_local_ref(previous, scope, view, ephemeral),
        remote: match previous {
            Some(m) => copy_pair(&m.remote),
            None => None,
        },
        last_observed_local: owned(tip),
        last_observed_remote: match previous {
            Some(m) => copy_text(&m.last_observed_remote),
            None => None,
        },
        last_exported,
        last_exported_state,
        last_observed_atomic: Some(state.to_owned()),
        status: RefSyncStatus::Synchronized,
    }
}

/// A refresh keeps the tracked remote pair and its observation.
pub proof fn refresh_keeps_the_remote(
    previous: RefMappingView,
    view_id: u64,
    view: Seq<char>,
    scope: ViewScope,
    ephemeral: bool,
    tip: Option<Seq<char>>,
    exported_tip: Option<Seq<char>>,
    state: Seq<char>,
)
    ensures
        ({
            let r = refreshed_of(
                Some(previous),
                view_id,
                view,
                scope,
                ephemeral,
                tip,
                exported_tip,
                state,
            );
            &&& r.remote == previous.remote
            &&& r.last_observed_remote == previous.last_observed_remote
            &&& exported_tip != tip ==> r.last_exported == previous.last_exported
                && r.last_exported_state == previous.last_exported_state
        }),
{
}

/// The mapping after the remote was seen to hold a pushed commit.
pub open spec fn pushed_of(
    previous: Option<RefMappingView>,
    view_id: u64,
    view: Seq<char>,
    scope: ViewScope,
    remote: Seq<char>,
    remote_ref: Seq<char>,
    tip: Seq<char>,
    state: Seq<char>,
) -> RefMappingView {
    RefMappingView {
        view_id,
        view_name: view,
        scope,
        local_ref: refreshed_ref(previous, scope, view, false),
        remote: Some((remote, remote_ref)),
        last_observed_local: kept_observed_local(previous),
        last_observed_remote: Some(tip),
        last_exported: kept_exported(previous),
        last_exported_state: kept_exported_state(previous),
        last_observed_atomic: Some(state),
        status: RefSyncStatus::Synchronized,
    }
}

/// Record the remote observation of a completed mapped-ref push: `tip` was
/// seen at the remote ref.
pub fn record_remote_push_observation(
    previous: Option<&RefMapping>,
    view_id: u64,
    view: &str,
    scope: ViewScope,
    remote_name: &str,
    remote_ref: &str,
    tip: &str,
    state: &str,
) -> (r: RefMapping)
    ensures
        r@ == pushed_of(
            opt_mapping(previous),
            view_id,
            view@,
            scope,
            remote_name@,
            remote_ref@,
            tip@,
            state@,
        ),
{
    RefMapping {
        view_id,
        view_name: view.to_owned(),
        scope,
        local_ref: refreshed_local_ref(previous, scope, view, false),
        remote: Some(
            RemotePair { remote: remote_name.to_owned(), reference: remote_ref.to_owned() },
        ),
        last_observed_local: match previous {
            Some(m) => copy_text(&m.last_observed_local),
            None => None,
        },
        last_observed_remote: Some(tip.to_owned()),
        last_exported: match previous {
            Some(m) => copy_text(&m.last_exported),
            None => None,
        },
        last_exported_state: match previous {
            Some(m) => copy_text(&m.last_exported_state),
            None => None,
        },
        last_observed_atomic: Some(state.to_owned()),
        status: RefSyncStatus::Synchronized,
    }
}

/// Mark a mapping diverged without moving either side.
pub fn persist_diverged_status(mapping: &RefMapping) -> (r: RefMapping)
    ensures
        r@ == (RefMappingView { status: RefSyncStatus::Diverged, ..mapping@ }),
{
    RefMapping {
        view_id: mapping.view_id,
        view_name: mapping.view_name.clone(),
        scope: mapping.scope,
        local_ref: copy_text(&mapping.local_ref),
        remote: copy_pair(&mapping.remote),
        last_observed_local: copy_text(&mapping.last_observed_local),
        last_observed_remote: copy_text(&mapping.last_observed_remote),
        last_exported: copy_text(&mapping.last_exported),
        last_exported_state: copy_text(&mapping.last_exported_state),
        last_observed_atomic: copy_text(&mapping.last_observed_atomic),
        status: RefSyncStatus::Diverged,
    }
}

/// The display-only mapping of a view without a persisted row.
pub fn unpersisted_mapping(view: &str, scope: ViewScope, ephemeral: bool) -> (r: RefMapping)
    ensures
        r@ == (RefMappingView {
            view_id: 0,
            view_name: view@,
            scope,
            local_ref: policy_ref(scope, view@, ephemeral),
            remote: None,
            last_observed_local: None,
            last_observed_remote: None,
            last_exported: None,
            last_exported_state: None,
            last_observed_atomic: None,
            status: RefSyncStatus::Synchronized,
        }),
{
    RefMapping {
        view_id: 0,
        view_name: view.to_owned(),
        scope,
        local_ref: mapped_ref_for_view(scope, view, ephemeral),
        remote: None,
        last_observed_local: None,
        last_observed_remote: None,
        last_exported: None,
        last_exported_state: None,
        last_observed_atomic: None,
        status: RefSyncStatus::Synchronized,
    }
}

/// The commits that a ref gained since its last observation.
#[derive(Debug)]
pub enum AddedCommits {
    /// The ref did not move.
    NoMovement,
    /// The ref moved over these commits.
    Added(Vec<String>),
    /// The movement cannot be proved, for this reason.
    Unprovable(String),
}

/// The commits over which containment can be proved; none when the movement
/// is not proved completely.
pub open spec fn provable_commits(a: AddedCommits) -> Option<Seq<Seq<char>>> {
    match a {
        AddedCommits::NoMovement => Some(seq![]),
        AddedCommits::Added(v) => Some(text::texts(v@)),
        AddedCommits::Unprovable(_) => None,
    }
}

/// The commits to ask for containment of: only a complete walk can carry a
/// proof, so an unprovable movement asks nothing.
pub fn containment_commits(added: &AddedCommits) -> (r: Option<Vec<String>>)
    ensures
        match r {
            Some(v) => provable_commits(*added) == Some(text::texts(v@)),
            None => provable_commits(*added) is None,
        },
{
    match added {
        AddedCommits::NoMovement => {
            let v: Vec<String> = Vec::new();
            assert(text::texts(v@) =~= seq![]);
            Some(v)
        },
        AddedCommits::Added(v) => Some(text::clone_texts(v)),
        AddedCommits::Unprovable(_) => None,
    }
}

/// What each side is proved to hold of the other.
#[derive(Clone, Copy, Debug, PartialEq, Eq, Structural)]
pub struct Containment {
    pub atomic_contains_git: Option<bool>,
    pub git_contains_atomic: Option<bool>,
}

/// The containment that classifies a mapping: what the two proofs say after
/// a complete walk, nothing after an incomplete one.
pub fn classify_mapping_direction(
    added: &AddedCommits,
    atomic_contains_git: Option<bool>,
    git_contains_atomic: Option<bool>,
) -> (r: Containment)
    ensures
        r == (if provable_commits(*added) is Some {
            Containment { atomic_contains_git, git_contains_atomic }
        } else {
            Containment { atomic_contains_git: None, git_contains_atomic: None }
        }),
{
    match added {
        AddedCommits::Unprovable(_) => Containment {
            atomic_contains_git: None,
            git_contains_atomic: None,
        },
        _ => Containment { atomic_contains_git, git_contains_atomic },
    }
}

/// The remediation of a status, as text.
pub open spec fn remediation_text(status: RefSyncStatus) -> Seq<char> {
    match status {
        RefSyncStatus::Diverged =>
            "resolve with 'atomic view insert' from the other side or 'git merge', then re-run 'atomic git bridge reconcile'"@,
        RefSyncStatus::GitAhead => "run 'atomic git bridge reconcile' to import the Git movement"@,
        RefSyncStatus::AtomicAhead =>
            "run 'atomic git bridge reconcile' to export the Atomic projection"@,
        RefSyncStatus::Synchronized => "no action needed"@,
        RefSyncStatus::Unrepresentable =>
            "the view no longer maps to a Git ref; republish via 'atomic git bridge publish' or 'git switch -c'"@,
    }
}

/// The actionable remediation text for a mapping status.
pub fn remediation_for(status: RefSyncStatus) -> (r: &'static str)
    ensures
        r@ == remediation_text(status),
{
    match status {
        RefSyncStatus::Diverged =>
            "resolve with 'atomic view insert' from the other side or 'git merge', then re-run 'atomic git bridge reconcile'",
        RefSyncStatus::GitAhead => "run 'atomic git bridge reconcile' to import the Git movement",
        RefSyncStatus::AtomicAhead =>
            "run 'atomic git bridge reconcile' to export the Atomic projection",
        RefSyncStatus::Synchronized => "no action needed",
        RefSyncStatus::Unrepresentable =>
            "the view no longer maps to a Git ref; republish via 'atomic git bridge publish' or 'git switch -c'",
    }
}

/// The direction that the three-way comparison of a mapping gives.
#[derive(Clone, Copy, Debug, PartialEq, Eq, Structural)]
pub enum ThreeWayAction {
    Noop,
    Import,
    Export,
    Diverged,
    Unrepresentable,
}

/// The warning that a mapping calls for, if any.
pub open spec fn notice_text(m: RefMappingView, view_exists: bool) -> Option<Seq<char>> {
    if m.status == RefSyncStatus::Diverged {
        Some(
            "ref mapping for view '"@ + m.view_name
                + "' is Diverged: Git and Atomic both moved beyond the last mutually observed mapping; neither side was moved. "@
                + remediation_text(RefSyncStatus::Diverged),
        )
    } else if !view_exists {
        Some(
            "ref mapping for deleted view '"@ + m.view_name + "' is Unrepresentable: its Git ref '"@
                + (match m.local_ref {
                Some(r) => r,
                None => "<no ref persisted>"@,
            }) + "' was left untouched. "@ + remediation_text(RefSyncStatus::Unrepresentable),
        )
    } else {
        None
    }
}

/// The divergence warning of one persisted mapping: a diverged view, or the
/// tombstone of a deleted one.
pub fn divergence_notice(mapping: &RefMapping, view_exists: bool) -> (r: Option<String>)
    ensures
        text::opt_text(r) == notice_text(mapping@, view_exists),
{
    if mapping.status == RefSyncStatus::Diverged {
        let mut m: String = "ref mapping for view '".to_owned();
        m.append(&mapping.view_name);
        m.append(
            "' is Diverged: Git and Atomic both moved beyond the last mutually observed mapping; neither side was moved. ",
        );
        m.append(remediation_for(RefSyncStatus::Diverged));
        Some(m)
    } else if !view_exists {
        let mut m: String = "ref mapping for deleted view '".to_owned();
        m.append(&mapping.view_name);
        m.append("' is Unrepresentable: its Git ref '");
        match &mapping.local_ref {
            Some(r) => m.append(r),
            None => m.append("<no ref persisted>"),
        }
        m.append("' was left untouched. ");
        m.append(remediation_for(RefSyncStatus::Unrepresentable));
        Some(m)
    } else {
        None
    }
}

/// The status that the report shows for a mapping; `action` is the result of
/// the three-way comparison, made only where the view exists.
pub open spec fn shown_status(
    status: RefSyncStatus,
    action: Option<ThreeWayAction>,
) -> RefSyncStatus {
    match action {
        None => RefSyncStatus::Unrepresentable,
        Some(ThreeWayAction::Diverged) => RefSyncStatus::Diverged,
        Some(ThreeWayAction::Import) => RefSyncStatus::GitAhead,
        Some(ThreeWayAction::Export) => RefSyncStatus::AtomicAhead,
        Some(ThreeWayAction::Noop) => status,
        Some(ThreeWayAction::Unrepresentable) => RefSyncStatus::Unrepresentable,
    }
}

/// The remediation that the report shows.
pub open spec fn shown_remediation(
    status: RefSyncStatus,
    action: Option<ThreeWayAction>,
) -> Seq<char> {
    if action is None {
        "view no longer exists; its Git ref was left untouched. republish via 'git switch -c' or 'atomic git bridge publish'"@
    } else {
        remediation_text(shown_status(status, action))
    }
}

/// Whether the report shows a view that no mapping is for: the current view,
/// where it exists.
pub fn reports_unmapped(mappings: &Vec<RefMapping>, view: &str, view_exists: bool) -> (r: bool)
    ensures
        r == (view_exists && forall|i: int|
            0 <= i < mappings@.len() ==> (#[trigger] mappings@[i]).view_name@ != view@),
{
    let mut i: usize = 0;
    while i < mappings.len()
        invariant
            i <= mappings@.len(),
            forall|k: int| 0 <= k < i ==> (#[trigger] mappings@[k]).view_name@ != view@,
        decreases mappings@.len() - i,
    {
        if same_text(&mappings[i].view_name, view) {
            return false;
        }
        i += 1;
    }
    view_exists
}

/// Status and remediation of one row of the mapping report.
pub fn report_row(status: RefSyncStatus, action: Option<ThreeWayAction>) -> (r: (
    RefSyncStatus,
    &'static str,
))
    ensures
        r.0 == shown_status(status, action),
        r.1@ == shown_remediation(status, action),
{
    match action {
        None => (
            RefSyncStatus::Unrepresentable,
            "view no longer exists; its Git ref was left untouched. republish via 'git switch -c' or 'atomic git bridge publish'",
        ),
        Some(ThreeWayAction::Diverged) => (
            RefSyncStatus::Diverged,
            remediation_for(RefSyncStatus::Diverged),
        ),
        Some(ThreeWayAction::Import) => (
            RefSyncStatus::GitAhead,
            remediation_for(RefSyncStatus::GitAhead),
        ),
        Some(ThreeWayAction::Export) => (
            RefSyncStatus::AtomicAhead,
            remediation_for(RefSyncStatus::AtomicAhead),
        ),
        Some(ThreeWayAction::Noop) => (status, remediation_for(status)),
        Some(ThreeWayAction::Unrepresentable) => (
            RefSyncStatus::Unrepresentable,
            remediation_for(RefSyncStatus::Unrepresentable),
        ),
    }
}

/// A field of the report, `<none>` where it is absent.
pub open spec fn or_none(o: Option<Seq<char>>) -> Seq<char> {
    match o {
        Some(s) => s,
        None => "<none>"@,
    }
}

/// The lines of one row of the mapping report.
pub open spec fn report_lines(
    m: RefMappingView,
    persisted: bool,
    scope_label: Seq<char>,
    status_label: Seq<char>,
    remediation: Seq<char>,
) -> Seq<Seq<char>> {
    seq![
        (if persisted {
            "mapping "@
        } else {
            "unpersisted "@
        }) + m.view_name,
        "  scope:       "@ + scope_label,
        "  local ref:   "@ + or_none(m.local_ref),
        "  last observed local:   "@ + or_none(m.last_observed_local),
        "  last observed atomic:  "@ + or_none(m.last_observed_atomic),
        "  last exported:         "@ + or_none(m.last_exported),
        "  status:      "@ + status_label,
        "  remediation: "@ + remediation,
    ]
}

fn labelled(label: &str, value: &str) -> (r: String)
    ensures
        r@ == label@ + value@,
{
    let mut m: String = label.to_owned();
    m.append(value);
    m
}

fn labelled_opt(label: &str, value: &Option<String>) -> (r: String)
    ensures
        r@ == label@ + or_none(text::opt_text(*value)),
{
    match value {
        Some(v) => labelled(label, v),
        None => labelled(label, "<none>"),
    }
}

/// The lines of one row of the mapping report.
pub fn status_report(
    mapping: &RefMapping,
    persisted: bool,
    scope_label: &str,
    status_label: &str,
    remediation: &str,
) -> (r: Vec<String>)
    ensures
        text::texts(r@) == report_lines(
            mapping@,
            persisted,
            scope_label@,
            status_label@,
            remediation@,
        ),
{
    let mut out: Vec<String> = Vec::new();
    out.push(
        labelled(
            if persisted {
                "mapping "
            } else {
                "unpersisted "
            },
            &mapping.view_name,
        ),
    );
    out.push(labelled("  scope:       ", scope_label));
    out.push(labelled_opt("  local ref:   ", &mapping.local_ref));
    out.push(labelled_opt("  last observed local:   ", &mapping.last_observed_local));
    out.push(labelled_opt("  last observed atomic:  ", &mapping.last_observed_atomic));
    out.push(labelled_opt("  last exported:         ", &mapping.last_exported));
    out.push(labelled("  status:      ", status_label));
    out.push(labelled("  remediation: ", remediation));
    assert(text::texts(out@) =~= report_lines(
        mapping@,
        persisted,
        scope_label@,
        status_label@,
        remediation@,
    ));
    out
}

/// Only a draft is published explicitly.
pub fn publishable_scope(view: &str, scope: ViewScope) -> (r: Result<(), CliError>)
    ensures
        match scope {
            ViewScope::Draft => r is Ok,
            ViewScope::Shared => r matches Err(e) && e.is_git_error(
                "view '"@ + view@
                    + "' is shared and already maps to a Git ref; publish applies to Draft views"@,
            ),
        },
{
    match scope {
        ViewScope::Draft => Ok(()),
        ViewScope::Shared => {
            let mut m: String = "view '".to_owned();
            m.append(view);
            m.append("' is shared and already maps to a Git ref; publish applies to Draft views");
            Err(git_error(m))
        },
    }
}

/// The refusal of an occupied publication target.
pub open spec fn occupied_message(
    view: Seq<char>,
    branch: Seq<char>,
    tip: Option<Seq<char>>,
) -> Seq<char> {
    "refusing to publish view '"@ + view + "': target branch 'refs/heads/"@ + branch
        + "' already exists at "@ + (match tip {
        Some(t) => t,
        None => "<symbolic>"@,
    }) + "; publication is create-only — delete or rename the branch first"@
}

/// The target ref of a publication. `occupant` is what the branch holds when
/// it exists already: its tip, or none for a symbolic ref. Publication is
/// create-only, so an occupied target is refused.
pub fn publication_target(view: &str, branch: &str, occupant: Option<Option<&str>>) -> (r: Result<
    String,
    CliError,
>)
    ensures
        match occupant {
            Some(tip) => r matches Err(e) && e.is_git_error(
                occupied_message(view@, branch@, text::opt_str(tip)),
            ),
            None => r matches Ok(t) && t@ == "refs/heads/"@ + branch@,
        },
{
    match occupant {
        Some(tip) => {
            let mut m: String = "refusing to publish view '".to_owned();
            m.append(view);
            m.append("': target branch 'refs/heads/");
            m.append(branch);
            m.append("' already exists at ");
            match tip {
                Some(t) => m.append(t),
                None => m.append("<symbolic>"),
            }
            m.append("; publication is create-only — delete or rename the branch first");
            Err(git_error(m))
        },
        None => {
            let mut m: String = "refs/heads/".to_owned();
            m.append(branch);
            Ok(m)
        },
    }
}

/// The ref that holds the projection of a draft: the one its mapping names,
/// else its private ref.
pub fn publication_source_ref(baseline: &RefMapping, view: &str) -> (r: String)
    ensures
        r@ == (match baseline@.local_ref {
            Some(l) => l,
            None => "refs/atomic/views/"@ + view@,
        }),
{
    match &baseline.local_ref {
        Some(l) => l.clone(),
        None => {
            let mut m: String = "refs/atomic/views/".to_owned();
            m.append(view);
            m
        },
    }
}

/// The verified checkpoint of the workspace.
#[derive(Debug)]
pub struct Checkpoint {
    pub view: String,
    pub git_head: String,
}

/// The refusal of a publication, if its source is not the verified
/// projection commit of the view.
pub open spec fn source_refusal(
    view: Seq<char>,
    commit: Option<Seq<char>>,
    checkpoint: Option<(Seq<char>, Seq<char>)>,
) -> Option<Seq<char>> {
    match commit {
        None => Some(
            "view '"@ + view
                + "' has no projection commit to publish; run 'atomic git bridge reconcile' or record first"@,
        ),
        Some(c) => match checkpoint {
            None => Some(
                "refusing to publish view '"@ + view
                    + "': there is no verified bridge checkpoint; run 'atomic git bridge reconcile' to verify the workspace first"@,
            ),
            Some((named, head)) => if named != view {
                Some(
                    "refusing to publish view '"@ + view
                        + "': the verified bridge checkpoint names view '"@ + named
                        + "' (the workspace must be reconciled and checked out on '"@ + view
                        + "' first)"@,
                )
            } else if head != c {
                Some(
                    "refusing to publish view '"@ + view + "': the candidate publication commit "@
                        + c + " is not the verified projection commit "@ + head
                        + " of the current workspace state. The draft's mapped ref moved outside a verified transition; run 'atomic git bridge reconcile' and re-verify before publishing"@,
                )
            } else {
                None
            },
        },
    }
}

/// The checkpoint as text.
pub open spec fn opt_checkpoint(o: Option<&Checkpoint>) -> Option<(Seq<char>, Seq<char>)> {
    match o {
        Some(c) => Some((c.view@, c.git_head@)),
        None => None,
    }
}

/// The commit to publish for a draft: the candidate `commit` found at its
/// ref, only if the verified checkpoint of the workspace names this view and
/// exactly this commit.
pub fn publication_source(view: &str, commit: Option<&str>, checkpoint: Option<&Checkpoint>) -> (r:
    Result<String, CliError>)
    ensures
        match source_refusal(view@, text::opt_str(commit), opt_checkpoint(checkpoint)) {
            Some(m) => r matches Err(e) && e.is_git_error(m),
            None => r matches Ok(c) && commit is Some && c@ == commit->0@,
        },
{
    let commit: &str = match commit {
        Some(c) => c,
        None => {
            let mut m: String = "view '".to_owned();
            m.append(view);
            m.append(
                "' has no projection commit to publish; run 'atomic git bridge reconcile' or record first",
            );
            return Err(git_error(m));
        },
    };
    match checkpoint {
        None => {
            let mut m: String = "refusing to publish view '".to_owned();
            m.append(view);
            m.append(
                "': there is no verified bridge checkpoint; run 'atomic git bridge reconcile' to verify the workspace first",
            );
            Err(git_error(m))
        },
        Some(c) => {
            if !same_text(&c.view, view) {
                let mut m: String = "refusing to publish view '".to_owned();
                m.append(view);
                m.append("': the verified bridge checkpoint names view '");
                m.append(&c.view);
                m.append("' (the workspace must be reconciled and checked out on '");
                m.append(view);
                m.append("' first)");
                return Err(git_error(m));
            }
            if !same_text(&c.git_head, commit) {
                let mut m: String = "refusing to publish view '".to_owned();
                m.append(view);
                m.append("': the candidate publication commit ");
                m.append(commit);
                m.append(" is not the verified projection commit ");
                m.append(&c.git_head);
                m.append(
                    " of the current workspace state. The draft's mapped ref moved outside a verified transition; run 'atomic git bridge reconcile' and re-verify before publishing",
                );
                return Err(git_error(m));
            }
            Ok(commit.to_owned())
        },
    }
}

/// The mapping of a published draft: bound to the branch, the commit and the
/// state that were verified.
pub fn published_mapping(
    baseline: &RefMapping,
    view_id: u64,
    view: &str,
    scope: ViewScope,
    target_ref: &str,
    commit: &str,
    state: &str,
) -> (r: RefMapping)
    ensures
        r@ == (RefMappingView {
            view_id,
            view_name: view@,
            scope,
            local_ref: Some(target_ref@),
            remote: baseline@.remote,
            last_observed_local: Some(commit@),
            last_observed_remote: baseline@.last_observed_remote,
            last_exported: Some(commit@),
            last_exported_state: Some(state@),
            last_observed_atomic: Some(state@),
            status: RefSyncStatus::Synchronized,
        }),
{
    RefMapping {
        view_id,
        view_name: view.to_owned(),
        scope,
        local_ref: Some(target_ref.to_owned()),
        remote: copy_pair(&baseline.remote),
        last_observed_local: Some(commit.to_owned()),
        last_observed_remote: copy_text(&baseline.last_observed_remote),
        last_exported: Some(commit.to_owned()),
        last_exported_state: Some(state.to_owned()),
        last_observed_atomic: Some(state.to_owned()),
        status: RefSyncStatus::Synchronized,
    }
}

/// Once published, a draft projects to its branch: a later refresh keeps the
/// published ref and never falls back to the private one.
pub proof fn publication_is_kept(
    published: RefMappingView,
    target: Seq<char>,
    view_id: u64,
    view: Seq<char>,
    scope: ViewScope,
    tip: Option<Seq<char>>,
    exported_tip: Option<Seq<char>>,
    state: Seq<char>,
)
    requires
        published.local_ref == Some(target),
    ensures
        refreshed_of(
            Some(published),
            view_id,
            view,
            scope,
            false,
            tip,
            exported_tip,
            state,
        ).local_ref == Some(target),
        effective_ref(Some(published), scope, view, false) == Some(target),
{
}

/// Only the verified projection of a view is published: a publication goes
/// through exactly when the checkpoint names the view and its commit is the
/// one to be published.
pub proof fn only_the_verified_projection_is_published(
    view: Seq<char>,
    commit: Option<Seq<char>>,
    checkpoint: Option<(Seq<char>, Seq<char>)>,
)
    ensures
        source_refusal(view, commit, checkpoint) is None <==> commit is Some && checkpoint == Some(
            (view, commit->0),
        ),
{
}

/// An observation that changes nothing changes nothing: refreshed with what
/// it already holds, a mapping of a lasting view stays as it is, apart from
/// being synchronized.
pub proof fn a_refresh_of_the_same_keeps_the_mapping(m: RefMappingView, state: Seq<char>)
    requires
        m.local_ref is Some,
        m.last_observed_atomic == Some(state),
    ensures
        refreshed_of(
            Some(m),
            m.view_id,
            m.view_name,
            m.scope,
            false,
            m.last_observed_local,
            None,
            state,
        ) == (RefMappingView { status: RefSyncStatus::Synchronized, ..m }),
{
}

/// A verified export binds tip and state together: a mapping that is
/// refreshed with an exported tip that is still the live one holds that tip
/// as observed and as exported, with the state it was exported from.
pub proof fn an_export_binds_tip_and_state(
    previous: Option<RefMappingView>,
    view_id: u64,
    view: Seq<char>,
    scope: ViewScope,
    ephemeral: bool,
    tip: Seq<char>,
    state: Seq<char>,
)
    ensures
        ({
            let r = refreshed_of(
                previous,
                view_id,
                view,
                scope,
                ephemeral,
                Some(tip),
                Some(tip),
                state,
            );
            &&& r.last_observed_local == Some(tip)
            &&& r.last_exported == Some(tip)
            &&& r.last_exported_state == Some(state)
            &&& r.last_observed_atomic == Some(state)
            &&& ephemeral ==> r.local_ref is None
        }),
{
}

/// A push tells nothing of the local side: what was observed and exported
/// locally stays, and the remote side is what was pushed where.
pub proof fn a_push_leaves_the_local_side(
    m: RefMappingView,
    view_id: u64,
    view: Seq<char>,
    scope: ViewScope,
    remote: Seq<char>,
    remote_ref: Seq<char>,
    tip: Seq<char>,
    state: Seq<char>,
)
    ensures
        ({
            let r = pushed_of(Some(m), view_id, view, scope, remote, remote_ref, tip, state);
            &&& r.remote == Some((remote, remote_ref))
            &&& r.last_observed_remote == Some(tip)
            &&& r.last_observed_local == m.last_observed_local
            &&& r.last_exported == m.last_exported
            &&& r.last_exported_state == m.last_exported_state
            &&& m.local_ref is Some ==> r.local_ref == m.local_ref
        }),
{
}

} // verus!
