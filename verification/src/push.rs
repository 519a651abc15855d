//! The push of a view to Git: what is published, under which message, to
//! which ref and under which lease.
use crate::error::{git_error, CliError};
use crate::message;
use crate::message::{parse_trailer, Merkle};
use crate::ref_mapping;
use crate::ref_mapping::{RefMapping, ViewScope};
use crate::text;
use crate::text::{join, lines, same_text, to_decimal};
use crate::transport;
use crate::transport::remote_lease_refspec;
use vstd::prelude::*;

verus! {

/// What libgit2 says of a reference name.
pub uninterp spec fn valid_reference_name(name: Seq<char>) -> bool;

/// `git2::Reference::is_valid_name`: whether libgit2 accepts `name` as the
/// name of a reference. The answer depends on the name alone. A name with a
/// NUL character makes the call panic.
#[verifier::external_body]
fn reference_name_is_valid(name: &str) -> (r: bool)
    requires
        !name@.contains('\0'),
    ensures
        r == valid_reference_name(name@),
{
    git2::Reference::is_valid_name(name)
}

/// The options of a push.
#[derive(Debug)]
pub struct Push {
    /// Custom commit message; none to synthesize one from the changes.
    pub message: Option<String>,
    /// Don't push to the remote after committing.
    pub no_push: bool,
    /// Remote name to push to.
    pub remote: String,
    /// Target branch on the remote; none for the current branch.
    pub branch: Option<String>,
    /// Commit even if the working copy holds unresolved conflict markers.
    pub allow_conflict_markers: bool,
    /// Export a view with unresolved conflicts.
    pub allow_conflicts: bool,
}

impl Default for Push {
    fn default() -> (r: Push)
        ensures
            r.message is None,
            !r.no_push,
            r.remote@ == "origin"@,
            r.branch is None,
            !r.allow_conflict_markers,
            !r.allow_conflicts,
    {
        Push {
            message: None,
            no_push: false,
            remote: "origin".to_owned(),
            branch: None,
            allow_conflict_markers: false,
            allow_conflicts: false,
        }
    }
}

/// A recorded change of the pushed view.
#[derive(Debug)]
pub struct HistoryEntry {
    /// The change hash, as text.
    pub hash: String,
    /// The view state after the change.
    pub state: Merkle,
    /// The change message, where the change has one.
    pub message: Option<String>,
}

/// The messages of a history, by entry.
pub open spec fn entry_messages(h: Seq<HistoryEntry>) -> Seq<Option<Seq<char>>> {
    h.map_values(|e: HistoryEntry| text::opt_text(e.message))
}

/// The hashes of a history, by entry.
pub open spec fn entry_hashes(h: Seq<HistoryEntry>) -> Seq<Seq<char>> {
    h.map_values(|e: HistoryEntry| e.hash@)
}

/// The states of a history, by entry.
pub open spec fn entry_states(h: Seq<HistoryEntry>) -> Seq<Merkle> {
    h.map_values(|e: HistoryEntry| e.state)
}

/// The messages that are not empty, newest first.
pub open spec fn newest_first(ms: Seq<Option<Seq<char>>>) -> Seq<Seq<char>>
    decreases ms.len(),
{
    if ms.len() == 0 {
        seq![]
    } else {
        let newer = newest_first(ms.drop_first());
        match ms[0] {
            Some(m) => if m.len() > 0 {
                newer.push(m)
            } else {
                newer
            },
            None => newer,
        }
    }
}

/// The first line of a message.
pub open spec fn first_line(m: Seq<char>) -> Seq<char> {
    if text::lines_of(m).len() > 0 {
        text::lines_of(m)[0]
    } else {
        m
    }
}

/// A heading with one bullet per message.
pub open spec fn bulleted(head: Seq<char>, ms: Seq<Seq<char>>) -> Seq<char>
    decreases ms.len(),
{
    if ms.len() == 0 {
        head
    } else {
        bulleted(head, ms.drop_last()) + "\n\n* "@ + first_line(ms.last())
    }
}

/// The message synthesized from change messages, newest first.
pub open spec fn synthesized(ms: Seq<Seq<char>>) -> Seq<char> {
    if ms.len() == 0 {
        "Atomic changes"@
    } else if ms.len() == 1 {
        ms[0]
    } else {
        bulleted(text::decimal(ms.len()) + " Atomic changes"@, ms)
    }
}

/// The scope, trees and state that a publication was verified for, as the
/// commit message names them.
#[derive(Debug)]
pub struct PublicationText {
    pub view: String,
    pub atomic_state: String,
    pub manifest: String,
    pub policy: String,
    pub algorithm: GitHashAlgorithm,
    pub tree: String,
}

/// The hash algorithm of a Git repository.
#[derive(Clone, Copy, Debug, PartialEq, Eq, Structural)]
pub enum GitHashAlgorithm {
    Sha1,
    Sha256,
}

/// Lowercase name of a Git hash algorithm.
pub open spec fn algorithm_name(a: GitHashAlgorithm) -> Seq<char> {
    match a {
        GitHashAlgorithm::Sha1 => "sha1"@,
        GitHashAlgorithm::Sha256 => "sha256"@,
    }
}

/// Lowercase name of a Git hash algorithm.
pub fn git_algorithm_label(a: GitHashAlgorithm) -> (r: &'static str)
    ensures
        r@ == algorithm_name(a),
{
    match a {
        GitHashAlgorithm::Sha1 => "sha1",
        GitHashAlgorithm::Sha256 => "sha256",
    }
}

/// The identity of a projected commit.
#[derive(Debug)]
pub struct ProjectionAuthor {
    pub name: String,
    pub email: String,
    pub did: String,
    pub agent_did: Option<String>,
}

/// The body of a push message.
pub open spec fn body_of(custom: Option<Seq<char>>, ms: Seq<Option<Seq<char>>>) -> Seq<char> {
    match custom {
        Some(m) => m,
        None => if ms.len() == 0 {
            "Working copy changes"@
        } else {
            synthesized(newest_first(ms))
        },
    }
}

/// The verified claims of a push message.
pub open spec fn claims_block(p: PublicationText) -> Seq<char> {
    "Atomic-View: "@ + p.view@ + "\n"@ + "Atomic-State: "@ + p.atomic_state@ + "\n"@
        + "Atomic-Manifest: "@ + p.manifest@ + "\n"@ + "Atomic-Policy: "@ + p.policy@ + "\n"@
        + "Atomic-Algorithm: "@ + algorithm_name(p.algorithm) + "\n"@ + "Atomic-Tree: "@ + p.tree@
        + "\n"@
}

/// The identity headers of a push message.
pub open spec fn identity_block(set_id: Seq<char>, state: Seq<char>, a: ProjectionAuthor) -> Seq<
    char,
> {
    "atomic-set "@ + set_id + "\n"@ + "atomic-state "@ + state + "\n"@ + "atomic-author "@ + a.did@
        + "\n"@ + (match a.agent_did {
        Some(agent) => "atomic-agent "@ + agent@ + "\n"@ + "Co-authored-by: "@ + a.name@ + " <"@
            + agent@ + ">\n"@,
        None => seq![],
    })
}

/// The change trailer of a push message.
pub open spec fn changes_block(hashes: Seq<Seq<char>>) -> Seq<char> {
    if hashes.len() == 0 {
        seq![]
    } else {
        "Atomic-Changes: "@ + text::joined(hashes, ", "@) + "\n"@
    }
}

/// The complete message of a push.
pub open spec fn push_message(
    body: Seq<char>,
    p: PublicationText,
    set_id: Seq<char>,
    a: ProjectionAuthor,
    hashes: Seq<Seq<char>>,
) -> Seq<char> {
    body + "\n\n"@ + claims_block(p) + identity_block(set_id, p.atomic_state@, a) + changes_block(
        hashes,
    )
}

/// Why an export of a conflicted view is refused by default.
pub open spec fn conflicted_message(view: Seq<char>) -> Seq<char> {
    "view '"@ + view
        + "' has unresolved Atomic conflicts; remote export is refused. Project the conflict snapshot on a Draft ref and publish its binding with --with-conflicts-pack first, or pass --allow-conflicts explicitly (which still requires a complete, current conflict pack and never bypasses trust/signing/lease gates)"@
}

/// Why an explicit export without a current pack is refused.
pub open spec fn stale_pack_message(set_hash: Seq<char>) -> Seq<char> {
    "--allow-conflicts requires a published binding whose conflicts.pack verifies against the CURRENT conflict set ("@
        + set_hash + "); no such pack exists, so the export stays refused"@
}

/// Why a push from a foreign state is refused.
pub open spec fn drift_message(view: Seq<char>) -> Seq<char> {
    "git shadow drift (V3): the branch was last published from a state view '"@ + view
        + "' cannot reach. Reconcile first, then re-push — `git reset --hard` the branch to its last coherent shadow commit, or `atomic git import` to onboard the git-side work. No commit was created."@
}

/// Whether the conflict gate asks for a current conflict pack.
#[derive(Clone, Copy, Debug, PartialEq, Eq, Structural)]
pub enum ConflictGate {
    /// No unresolved conflict: the export is free to go on.
    Clear,
    /// The explicit flag was given: a published pack must verify against the
    /// current conflict set.
    RequirePack,
}

/// What the history of a view has to publish.
#[derive(Clone, Copy, Debug, PartialEq, Eq, Structural)]
pub enum HistoryPlan {
    /// Nothing was ever recorded.
    NothingRecorded,
    /// The entries from `start` on are new since the last push.
    Publish { start: usize },
}

/// First entry of `states` that equals `s`.
pub open spec fn state_index(states: Seq<Merkle>, s: Merkle) -> Option<int>
    decreases states.len(),
{
    if states.len() == 0 {
        None
    } else if states[0] == s {
        Some(0int)
    } else {
        match state_index(states.drop_first(), s) {
            Some(i) => Some(i + 1),
            None => None,
        }
    }
}

/// What follows the comparison of the verified tree with the current commit.
#[derive(Debug)]
pub enum PushStep {
    /// The trees differ: commit, then push unless told not to.
    Commit,
    /// Nothing is committed and nothing pushed, for this reason.
    Stop { notice: String },
    /// Nothing is committed; what is there is pushed to this branch.
    PushExisting { notice: String, target: String },
}

/// A `PushStep` as a value.
pub enum PushStepView {
    Commit,
    Stop { notice: Seq<char> },
    PushExisting { notice: Seq<char>, target: Seq<char> },
}

impl View for PushStep {
    type V = PushStepView;

    open spec fn view(&self) -> PushStepView {
        match self {
            PushStep::Commit => PushStepView::Commit,
            PushStep::Stop { notice } => PushStepView::Stop { notice: notice@ },
            PushStep::PushExisting { notice, target } => PushStepView::PushExisting {
                notice: notice@,
                target: target@,
            },
        }
    }
}

/// The first entry to publish: the one behind the state that was pushed last,
/// or the very first where none was; none where that state is unknown.
pub open spec fn publish_start(states: Seq<Merkle>, last: Option<Merkle>) -> Option<int> {
    match last {
        None => Some(0),
        Some(s) => match state_index(states, s) {
            Some(i) => Some(i + 1),
            None => None,
        },
    }
}

/// `s` for every number but one.
pub open spec fn plural(n: nat) -> Seq<char> {
    if n == 1 {
        ""@
    } else {
        "s"@
    }
}

/// What follows the comparison of the verified tree with the current commit.
pub open spec fn push_step(
    unchanged: bool,
    ahead: nat,
    branch_name: Seq<char>,
    target_override: Option<Seq<char>>,
    no_push: bool,
    remote: Seq<char>,
) -> PushStepView {
    let target = match target_override {
        Some(t) => t,
        None => branch_name,
    };
    let unpushed = text::decimal(ahead) + " unpushed commit"@ + plural(ahead);
    if !unchanged {
        PushStepView::Commit
    } else if ahead == 0 && target_override is None {
        PushStepView::Stop { notice: "Working copy matches Git HEAD. Nothing to commit."@ }
    } else if no_push {
        PushStepView::Stop {
            notice: if ahead > 0 {
                "Nothing to commit, but "@ + unpushed + " (--no-push set)."@
            } else {
                "Nothing to commit (--no-push set)."@
            },
        }
    } else {
        PushStepView::PushExisting {
            notice: if ahead > 0 {
                "Nothing to commit, but "@ + unpushed + ". Pushing..."@
            } else {
                "Nothing to commit. Pushing current state to "@ + remote + "/"@ + target + "..."@
            },
            target,
        }
    }
}

/// The lease that a push to a tracked ref runs under.
#[derive(Debug)]
pub enum LeasePlan {
    /// Pinned to the last observed tip.
    Leased(String),
    /// No lease: Git's own fast-forward check decides.
    Unleased,
    /// The remote was never observed: observe the ref first.
    ObserveFirst,
}

/// A `LeasePlan` as a value.
pub enum LeasePlanView {
    Leased(Seq<char>),
    Unleased,
    ObserveFirst,
}

impl View for LeasePlan {
    type V = LeasePlanView;

    open spec fn view(&self) -> LeasePlanView {
        match self {
            LeasePlan::Leased(l) => LeasePlanView::Leased(l@),
            LeasePlan::Unleased => LeasePlanView::Unleased,
            LeasePlan::ObserveFirst => LeasePlanView::ObserveFirst,
        }
    }
}

/// The ref that a mapping tracks on `remote`, else the pushed one.
pub open spec fn tracked_ref(
    mapping: Option<ref_mapping::RefMappingView>,
    remote: Seq<char>,
    destination: Seq<char>,
) -> Seq<char> {
    match mapping {
        Some(m) => match m.remote {
            Some((name, reference)) => if name == remote {
                reference
            } else {
                destination
            },
            None => destination,
        },
        None => destination,
    }
}

/// The lease of a push to `destination` on `remote`.
pub open spec fn lease_plan_of(
    mapping: Option<ref_mapping::RefMappingView>,
    remote: Seq<char>,
    destination: Seq<char>,
) -> LeasePlanView {
    let observed = match mapping {
        Some(m) => m.last_observed_remote,
        None => None,
    };
    if tracked_ref(mapping, remote, destination) != destination {
        LeasePlanView::Unleased
    } else if observed is None {
        LeasePlanView::ObserveFirst
    } else {
        match transport::lease_of(observed, destination) {
            Some(l) => LeasePlanView::Leased(l),
            None => LeasePlanView::Unleased,
        }
    }
}

/// A lease pins what was last observed at the destination: a push is leased
/// against that tip and no other, so newer work of others is not
/// overwritten.
pub proof fn leases_pin_what_was_observed(
    mapping: Option<ref_mapping::RefMappingView>,
    remote: Seq<char>,
    destination: Seq<char>,
)
    ensures
        lease_plan_of(mapping, remote, destination) matches LeasePlanView::Leased(l) ==> {
            &&& mapping matches Some(m) && m.last_observed_remote is Some
            &&& l == "--force-with-lease="@ + destination + ":"@ + text::trimmed(
                mapping->0.last_observed_remote->0,
            )
        },
{
}

/// A push is leased against the one before it: what was recorded of a push
/// to a ref is the lease of the next push there.
pub proof fn the_next_push_is_leased(
    previous: Option<ref_mapping::RefMappingView>,
    view_id: u64,
    view: Seq<char>,
    scope: ViewScope,
    remote: Seq<char>,
    destination: Seq<char>,
    tip: Seq<char>,
    state: Seq<char>,
)
    requires
        text::trimmed(tip).len() > 0,
    ensures
        lease_plan_of(
            Some(
                ref_mapping::pushed_of(
                    previous,
                    view_id,
                    view,
                    scope,
                    remote,
                    destination,
                    tip,
                    state,
                ),
            ),
            remote,
            destination,
        ) == LeasePlanView::Leased(
            "--force-with-lease="@ + destination + ":"@ + text::trimmed(tip),
        ),
{
}

/// A commit on the first-parent line, with what the text of its
/// `Atomic-State` trailer decodes to.
#[derive(Debug)]
pub struct PushedCommit {
    pub message: String,
    pub decoded: Option<Merkle>,
}

/// The state that the commit carries for `view`.
pub open spec fn carried_state(c: PushedCommit, view: Seq<char>) -> Option<Merkle> {
    if message::trailer_of(c.message@, "Atomic-View"@) == Some(view) && message::trailer_of(
        c.message@,
        "Atomic-State"@,
    ) is Some {
        c.decoded
    } else {
        None
    }
}

/// The state that the first of `cs` to carry one carries for `view`.
pub open spec fn last_pushed(cs: Seq<PushedCommit>, view: Seq<char>) -> Option<Merkle>
    decreases cs.len(),
{
    if cs.len() == 0 {
        None
    } else {
        match carried_state(cs[0], view) {
            Some(s) => Some(s),
            None => last_pushed(cs.drop_first(), view),
        }
    }
}

impl Push {
    /// The message synthesized from the messages of the new changes: newest
    /// first, a bullet list when there are several.
    pub fn synthesize_message(&self, new_history: &Vec<HistoryEntry>) -> (r: String)
        ensures
            r@ == synthesized(newest_first(entry_messages(new_history@))),
    {
        let mut messages: Vec<String> = Vec::new();
        let ghost ms = entry_messages(new_history@);
        let mut i: usize = new_history.len();
        assert(text::texts(messages@) =~= newest_first(ms.skip(i as int)));
        while i > 0
            invariant
                i <= new_history@.len(),
                ms == entry_messages(new_history@),
                text::texts(messages@) == newest_first(ms.skip(i as int)),
            decreases i,
        {
            i -= 1;
            let ghost before = text::texts(messages@);
            assert(ms.skip(i as int)[0] == text::opt_text(new_history@[i as int].message));
            assert(ms.skip(i as int).drop_first() =~= ms.skip(i as int + 1));
            match &new_history[i].message {
                Some(m) => {
                    if !m.as_str().is_empty() {
                        messages.push(m.clone());
                        assert(text::texts(messages@) =~= before.push(m@));
                    }
                },
                None => {},
            }
        }
        assert(ms.skip(0) =~= ms);
        let ghost all = text::texts(messages@);
        assert(all.len() == messages@.len());
        if messages.len() == 0 {
            return "Atomic changes".to_owned();
        }
        if messages.len() == 1 {
            assert(all[0] == messages@[0]@);
            return messages[0].clone();
        }
        let mut result: String = to_decimal(messages.len() as u64);
        result.append(" Atomic changes");
        let ghost head = result@;
        let mut k: usize = 0;
        assert(all.take(0) =~= seq![]);
        while k < messages.len()
            invariant
                k <= messages@.len(),
                all == text::texts(messages@),
                result@ == bulleted(head, all.take(k as int)),
            decreases messages@.len() - k,
        {
            assert(all.take(k as int + 1).drop_last() =~= all.take(k as int));
            assert(all.take(k as int + 1).last() == messages@[k as int]@);
            let ls = lines(&messages[k]);
            assert(text::texts(ls@).len() == ls@.len());
            result.append("\n\n* ");
            if ls.len() > 0 {
                assert(text::texts(ls@)[0] == ls@[0]@);
                result.append(&ls[0]);
            } else {
                result.append(&messages[k]);
            }
            k += 1;
        }
        assert(all.take(messages@.len() as int) =~= all);
        result
    }

    /// Build the commit message of a push: the body, the verified claims, the
    /// identity headers and the new changes. Refused when the view or its
    /// state is not the one that the publication was verified for, or when
    /// the state is no Merkle value (`state_decodes`).
    pub fn build_commit_message(
        &self,
        new_history: &Vec<HistoryEntry>,
        latest_state: &str,
        state_decodes: bool,
        view: &str,
        publication: &PublicationText,
        set_id: &str,
        author: &ProjectionAuthor,
    ) -> (r: Result<String, CliError>)
        ensures
            if publication.view@ != view@ || publication.atomic_state@ != latest_state@ {
                r matches Err(e) && e.is_git_error(
                    "Atomic view/state changed after publication verification"@,
                )
            } else if !state_decodes {
                r matches Err(e) && e.is_git_error(
                    "verified view state is not a valid Merkle value"@,
                )
            } else {
                r matches Ok(m) && m@ == push_message(
                    body_of(text::opt_text(self.message), entry_messages(new_history@)),
                    *publication,
                    set_id@,
                    *author,
                    entry_hashes(new_history@),
                )
            },
    {
        if !same_text(&publication.view, view) || !same_text(
            &publication.atomic_state,
            latest_state,
        ) {
            return Err(
                git_error("Atomic view/state changed after publication verification".to_owned()),
            );
        }
        if !state_decodes {
            return Err(git_error("verified view state is not a valid Merkle value".to_owned()));
        }
        let mut m: String = match &self.message {
            Some(custom) => custom.clone(),
            None => if new_history.len() == 0 {
                "Working copy changes".to_owned()
            } else {
                self.synthesize_message(new_history)
            },
        };
        let ghost body = m@;
        assert(entry_messages(new_history@).len() == new_history@.len());
        m.append("\n\n");
        let claims = claims_text(publication);
        m.append(&claims);
        let identity = identity_text(set_id, latest_state, author);
        m.append(&identity);
        let mut hashes: Vec<String> = Vec::new();
        let mut i: usize = 0;
        let ghost hs = entry_hashes(new_history@);
        assert(text::texts(hashes@) =~= hs.take(0));
        while i < new_history.len()
            invariant
                i <= new_history@.len(),
                hs == entry_hashes(new_history@),
                text::texts(hashes@) == hs.take(i as int),
            decreases new_history@.len() - i,
        {
            let ghost before = text::texts(hashes@);
            hashes.push(new_history[i].hash.clone());
            assert(text::texts(hashes@) =~= before.push(new_history@[i as int].hash@));
            assert(text::texts(hashes@) =~= hs.take(i as int + 1));
            i += 1;
        }
        assert(hs.take(new_history@.len() as int) =~= hs);
        if hashes.len() > 0 {
            m.append("Atomic-Changes: ");
            m.append(&join(&hashes, ", "));
            m.append("\n");
        }
        assert(m@ =~= push_message(body, *publication, set_id@, *author, hs));
        Ok(m)
    }

    /// The state that the most recent commit published from `view` carries:
    /// `commits` is the whole first-parent line, newest first.
    pub fn find_last_pushed_state(&self, commits: &Vec<PushedCommit>, view: &str) -> (r: Option<
        Merkle,
    >)
        ensures
            r == last_pushed(commits@, view@),
    {
        let ghost cs = commits@;
        let mut i: usize = 0;
        assert(cs.skip(0) =~= cs);
        while i < commits.len()
            invariant
                i <= commits@.len(),
                cs == commits@,
                last_pushed(cs.skip(i as int), view@) == last_pushed(cs, view@),
            decreases commits@.len() - i,
        {
            assert(cs.skip(i as int)[0] == commits@[i as int]);
            assert(cs.skip(i as int).drop_first() =~= cs.skip(i as int + 1));
            let c: &PushedCommit = &commits[i];
            match parse_trailer(&c.message, "Atomic-View") {
                Some(v) => {
                    if same_text(&v, view) {
                        if parse_trailer(&c.message, "Atomic-State").is_some() {
                            if let Some(s) = c.decoded {
                                return Some(s);
                            }
                        }
                    }
                },
                None => {},
            }
            i += 1;
        }
        None
    }

    /// Refuse the export of a view with unresolved conflicts, unless it was
    /// explicitly allowed.
    pub fn conflict_gate(&self, view: &str, conflicted: bool) -> (r: Result<ConflictGate, CliError>)
        ensures
            if !conflicted {
                r == Ok::<ConflictGate, CliError>(ConflictGate::Clear)
            } else if !self.allow_conflicts {
                r matches Err(e) && e.is_invalid_operation(conflicted_message(view@))
            } else {
                r == Ok::<ConflictGate, CliError>(ConflictGate::RequirePack)
            },
    {
        if !conflicted {
            return Ok(ConflictGate::Clear);
        }
        if !self.allow_conflicts {
            let mut m: String = "view '".to_owned();
            m.append(view);
            m.append(
                "' has unresolved Atomic conflicts; remote export is refused. Project the conflict snapshot on a Draft ref and publish its binding with --with-conflicts-pack first, or pass --allow-conflicts explicitly (which still requires a complete, current conflict pack and never bypasses trust/signing/lease gates)",
            );
            return Err(CliError::InvalidOperation { message: m });
        }
        Ok(ConflictGate::RequirePack)
    }

    /// The history entries to publish: those behind the last pushed state. A
    /// last pushed state outside the history is drift, which is refused.
    pub fn plan_history(
        &self,
        view: &str,
        history: &Vec<HistoryEntry>,
        last_pushed_state: Option<Merkle>,
    ) -> (r: Result<HistoryPlan, CliError>)
        ensures
            if history@.len() == 0 {
                r == Ok::<HistoryPlan, CliError>(HistoryPlan::NothingRecorded)
            } else {
                match last_pushed_state {
                    None => r == Ok::<HistoryPlan, CliError>(HistoryPlan::Publish { start: 0 }),
                    Some(s) => match state_index(entry_states(history@), s) {
                        Some(i) => r matches Ok(HistoryPlan::Publish { start }) && start == i + 1,
                        None => r matches Err(e) && e.is_git_error(drift_message(view@)),
                    },
                }
            },
            r matches Ok(HistoryPlan::Publish { start }) ==> publish_start(
                entry_states(history@),
                last_pushed_state,
            ) == Some(start as int),
    {
        if history.len() == 0 {
            return Ok(HistoryPlan::NothingRecorded);
        }
        match last_pushed_state {
            None => Ok(HistoryPlan::Publish { start: 0 }),
            Some(s) => {
                let ghost states = entry_states(history@);
                let mut i: usize = 0;
                assert(states.skip(0) =~= states);
                while i < history.len()
                    invariant
                        i <= history@.len(),
                        history@.len() > 0,
                        states == entry_states(history@),
                        last_pushed_state == Some(s),
                        match state_index(states.skip(i as int), s) {
                            Some(k) => state_index(states, s) == Some(k + i),
                            None => state_index(states, s) is None,
                        },
                    decreases history@.len() - i,
                {
                    assert(states.skip(i as int)[0] == history@[i as int].state);
                    assert(states.skip(i as int).drop_first() =~= states.skip(i as int + 1));
                    if history[i].state == s {
                        return Ok(HistoryPlan::Publish { start: i + 1 });
                    }
                    i += 1;
                }
                let mut m: String = "git shadow drift (V3): the branch was last published from a state view '".to_owned();
                m.append(view);
                m.append(
                    "' cannot reach. Reconcile first, then re-push — `git reset --hard` the branch to its last coherent shadow commit, or `atomic git import` to onboard the git-side work. No commit was created.",
                );
                Err(git_error(m))
            },
        }
    }

    /// What follows once the verified tree was compared with the current
    /// commit: `unchanged` when a current commit has this very tree, `ahead`
    /// the commits that the push target lacks.
    pub fn plan_commit(
        &self,
        unchanged: bool,
        ahead: usize,
        branch_name: &str,
        target_override: Option<&str>,
    ) -> (r: PushStep)
        ensures
            r@ == push_step(
                unchanged,
                ahead as nat,
                branch_name@,
                text::opt_str(target_override),
                self.no_push,
                self.remote@,
            ),
    {
        if !unchanged {
            return PushStep::Commit;
        }
        let target: &str = match target_override {
            Some(t) => t,
            None => branch_name,
        };
        if ahead == 0 && target_override.is_none() {
            return PushStep::Stop {
                notice: "Working copy matches Git HEAD. Nothing to commit.".to_owned(),
            };
        }
        let mut unpushed: String = to_decimal(ahead as u64);
        unpushed.append(" unpushed commit");
        unpushed.append(if ahead == 1 { "" } else { "s" });
        if self.no_push {
            if ahead > 0 {
                let mut m: String = "Nothing to commit, but ".to_owned();
                m.append(&unpushed);
                m.append(" (--no-push set).");
                return PushStep::Stop { notice: m };
            }
            return PushStep::Stop { notice: "Nothing to commit (--no-push set).".to_owned() };
        }
        if ahead > 0 {
            let mut m: String = "Nothing to commit, but ".to_owned();
            m.append(&unpushed);
            m.append(". Pushing...");
            return PushStep::PushExisting { notice: m, target: target.to_owned() };
        }
        let mut m: String = "Nothing to commit. Pushing current state to ".to_owned();
        m.append(&self.remote);
        m.append("/");
        m.append(target);
        m.append("...");
        PushStep::PushExisting { notice: m, target: target.to_owned() }
    }

    /// Resolve the branch that a push targets: the explicit one, else the
    /// branch named after a draft view, else none (the current branch). The
    /// name of a draft is used verbatim, so one that is no valid ref name is
    /// an error.
    pub fn resolve_branch_override(
        explicit: Option<&str>,
        scope: ViewScope,
        view: &str,
    ) -> (r: Result<Option<String>, CliError>)
        requires
            explicit is None && scope == ViewScope::Draft ==> !view@.contains('\0'),
        ensures
            match explicit {
                Some(b) => r matches Ok(o) && text::opt_text(o) == Some(b@),
                None => match scope {
                    ViewScope::Shared => r matches Ok(o) && o is None,
                    ViewScope::Draft => if valid_reference_name("refs/heads/"@ + view@) {
                        r matches Ok(o) && text::opt_text(o) == Some(view@)
                    } else {
                        r matches Err(e) && e.is_git_error(
                            "Draft view '"@ + view@
                                + "' is not a valid git branch name; pass --branch to choose an explicit target."@,
                        )
                    },
                },
            },
    {
        if let Some(branch) = explicit {
            return Ok(Some(branch.to_owned()));
        }
        match scope {
            ViewScope::Shared => Ok(None),
            ViewScope::Draft => {
                let mut refname: String = "refs/heads/".to_owned();
                refname.append(view);
                proof {
                    reveal_strlit("refs/heads/");
                    assert forall|i: int| 0 <= i < refname@.len() implies refname@[i] != '\0' by {
                        if i >= "refs/heads/"@.len() {
                            assert(refname@[i] == view@[i - "refs/heads/"@.len()]);
                        } else {
                            assert(refname@[i] == "refs/heads/"@[i]);
                        }
                    }
                }
                let valid = reference_name_is_valid(&refname);
                Push::draft_branch(view, valid)
            },
        }
    }

    /// The branch of a draft view, given whether its name makes a valid
    /// branch name.
    pub fn draft_branch(view: &str, valid: bool) -> (r: Result<Option<String>, CliError>)
        ensures
            if valid {
                r matches Ok(o) && text::opt_text(o) == Some(view@)
            } else {
                r matches Err(e) && e.is_git_error(
                    "Draft view '"@ + view@
                        + "' is not a valid git branch name; pass --branch to choose an explicit target."@,
                )
            },
    {
        if valid {
            return Ok(Some(view.to_owned()));
        }
        let mut m: String = "Draft view '".to_owned();
        m.append(view);
        m.append(
            "' is not a valid git branch name; pass --branch to choose an explicit target.",
        );
        Err(git_error(m))
    }

    /// The branch that a push lands on: the resolved override, else the
    /// checked-out branch, else `HEAD`.
    pub fn target_branch(&self, head: Option<&str>, override_branch: Option<&str>) -> (r: String)
        ensures
            r@ == (match override_branch {
                Some(b) => b@,
                None => match head {
                    Some(h) => h@,
                    None => "HEAD"@,
                },
            }),
    {
        match override_branch {
            Some(b) => b.to_owned(),
            None => match head {
                Some(h) => h.to_owned(),
                None => "HEAD".to_owned(),
            },
        }
    }

    /// The ref that unpushed commits are counted against when the push is
    /// redirected; none for the configured upstream.
    pub fn comparison_ref(&self, override_branch: Option<&str>) -> (r: Option<String>)
        ensures
            text::opt_text(r) == (match override_branch {
                Some(b) => Some("refs/remotes/"@ + self.remote@ + "/"@ + b@),
                None => None,
            }),
    {
        match override_branch {
            Some(b) => {
                let mut m: String = "refs/remotes/".to_owned();
                m.append(&self.remote);
                m.append("/");
                m.append(b);
                Some(m)
            },
            None => None,
        }
    }

    /// Count the commits that the push target lacks: `ahead` is how far the
    /// local commit is ahead of the upstream one, where both exist and are
    /// comparable.
    pub fn unpushed_commit_count(&self, local: bool, upstream: bool, ahead: Option<usize>) -> (r:
        usize)
        ensures
            r == (if local && upstream && ahead is Some {
                ahead->0
            } else {
                0
            }),
    {
        if local && upstream {
            match ahead {
                Some(n) => n,
                None => 0,
            }
        } else {
            0
        }
    }

    /// The ref that a push writes.
    pub fn destination(current: &str, override_branch: Option<&str>) -> (r: String)
        ensures
            r@ == "refs/heads/"@ + (match override_branch {
                Some(b) => b@,
                None => current@,
            }),
    {
        let mut m: String = "refs/heads/".to_owned();
        match override_branch {
            Some(b) => m.append(b),
            None => m.append(current),
        }
        m
    }

    /// The refspec of a push: the exact verified commit, never the mutable
    /// `HEAD`. Local recovery refs are never published.
    pub fn refspec(destination: &str, publishable: bool, verified_head: Option<&str>) -> (r: Result<
        String,
        CliError,
    >)
        ensures
            if !publishable {
                r matches Err(e) && e.is_git_error(
                    "refusing to publish local recovery ref '"@ + destination@ + "'"@,
                )
            } else {
                match verified_head {
                    None => r matches Err(e) && e.is_git_error(
                        "the verified publication carries no Git commit to push"@,
                    ),
                    Some(h) => r matches Ok(s) && s@ == h@ + ":"@ + destination@,
                }
            },
    {
        if !publishable {
            let mut m: String = "refusing to publish local recovery ref '".to_owned();
            m.append(destination);
            m.append("'");
            return Err(git_error(m));
        }
        match verified_head {
            None => Err(
                git_error("the verified publication carries no Git commit to push".to_owned()),
            ),
            Some(h) => {
                let mut m: String = h.to_owned();
                m.append(":");
                m.append(destination);
                Ok(m)
            },
        }
    }

    /// The lease that a push to `destination` runs under, from the mapping
    /// of its view.
    pub fn lease_plan(&self, mapping: Option<&RefMapping>, destination: &str) -> (r: LeasePlan)
        ensures
            r@ == lease_plan_of(ref_mapping::opt_mapping(mapping), self.remote@, destination@),
    {
        let same_ref: bool = match mapping {
            Some(m) => match &m.remote {
                Some(p) => if same_text(&p.remote, &self.remote) {
                    same_text(&p.reference, destination)
                } else {
                    true
                },
                None => true,
            },
            None => true,
        };
        if !same_ref {
            return LeasePlan::Unleased;
        }
        match mapping {
            Some(m) => match &m.last_observed_remote {
                Some(expected) => match remote_lease_refspec(
                    Some(expected.as_str()),
                    destination,
                ) {
                    Some(l) => LeasePlan::Leased(l),
                    None => LeasePlan::Unleased,
                },
                None => LeasePlan::ObserveFirst,
            },
            None => LeasePlan::ObserveFirst,
        }
    }

    /// The lease after a first observation of the remote ref: an absent ref
    /// is leased as absent; a ref that exists carries someone's work and is
    /// never leased.
    pub fn lease_after_observation(tip: Option<&str>, destination: &str) -> (r: Option<String>)
        ensures
            text::opt_text(r) == (match tip {
                None => Some(transport::create_only_lease(destination@)),
                Some(_) => None,
            }),
    {
        match tip {
            None => {
                let mut m: String = "--force-with-lease=".to_owned();
                m.append(destination);
                m.append(":");
                Some(m)
            },
            Some(_) => None,
        }
    }

    /// The arguments of the `git` command that pushes `refspec`.
    pub fn push_arguments(&self, lease: Option<&str>, refspec: &str) -> (r: Vec<String>)
        ensures
            text::texts(r@) == (match lease {
                Some(l) => seq!["push"@, self.remote@, l@, refspec@],
                None => seq!["push"@, self.remote@, refspec@],
            }),
    {
        let mut out: Vec<String> = Vec::new();
        out.push("push".to_owned());
        out.push(self.remote.clone());
        if let Some(l) = lease {
            out.push(l.to_owned());
        }
        out.push(refspec.to_owned());
        assert(text::texts(out@) =~= (match lease {
            Some(l) => seq!["push"@, self.remote@, l@, refspec@],
            None => seq!["push"@, self.remote@, refspec@],
        }));
        out
    }

    /// The error of a push that `git` ended with `status`.
    pub fn push_failure(status: &str, leased: bool) -> (r: CliError)
        ensures
            r.is_git_error(
                "git push exited with "@ + status@ + (if leased {
                    " (the remote ref moved since it was last observed; the lease refused to overwrite newer external work — fetch/reconcile and retry)"@
                } else {
                    ""@
                }),
            ),
    {
        let mut m: String = "git push exited with ".to_owned();
        m.append(status);
        m.append(
            if leased {
                " (the remote ref moved since it was last observed; the lease refused to overwrite newer external work — fetch/reconcile and retry)"
            } else {
                ""
            },
        );
        git_error(m)
    }

    /// Whether the remote tip that was seen after a push is recorded as
    /// observed: only when it is exactly the pushed commit.
    pub fn remote_holds_push(tip: Option<&str>, pushed: &str) -> (r: bool)
        ensures
            r == (tip is Some && tip->0@ == pushed@),
    {
        match tip {
            Some(t) => same_text(t, pushed),
            None => false,
        }
    }

    /// The notice of a created commit.
    pub fn created_notice(short_oid: &str, view: &str, new_count: usize) -> (r: String)
        ensures
            r@ == "Created git commit "@ + short_oid@ + " on view '"@ + view@ + (if new_count > 0 {
                "' ("@ + text::decimal(new_count as nat) + " new change"@ + plural(new_count as nat)
                    + ")"@
            } else {
                "' (working copy changes)"@
            }),
    {
        let mut m: String = "Created git commit ".to_owned();
        m.append(short_oid);
        m.append(" on view '");
        m.append(view);
        let ghost head = m@;
        if new_count > 0 {
            let mut tail: String = "' (".to_owned();
            tail.append(&to_decimal(new_count as u64));
            tail.append(" new change");
            tail.append(if new_count == 1 { "" } else { "s" });
            tail.append(")");
            m.append(&tail);
        } else {
            m.append("' (working copy changes)");
        }
        m
    }
}

/// Require a conflict pack that verifies against the current conflict set.
pub fn require_current_pack(pack_current: bool, set_hash: &str) -> (r: Result<(), CliError>)
    ensures
        if pack_current {
            r is Ok
        } else {
            r matches Err(e) && e.is_invalid_operation(stale_pack_message(set_hash@))
        },
{
    if pack_current {
        return Ok(());
    }
    let mut m: String = "--allow-conflicts requires a published binding whose conflicts.pack verifies against the CURRENT conflict set (".to_owned();
    m.append(set_hash);
    m.append("); no such pack exists, so the export stays refused");
    Err(CliError::InvalidOperation { message: m })
}

fn claims_text(p: &PublicationText) -> (r: String)
    ensures
        r@ == claims_block(*p),
{
    let mut m: String = "Atomic-View: ".to_owned();
    m.append(&p.view);
    m.append("\n");
    m.append("Atomic-State: ");
    m.append(&p.atomic_state);
    m.append("\n");
    m.append("Atomic-Manifest: ");
    m.append(&p.manifest);
    m.append("\n");
    m.append("Atomic-Policy: ");
    m.append(&p.policy);
    m.append("\n");
    m.append("Atomic-Algorithm: ");
    m.append(git_algorithm_label(p.algorithm));
    m.append("\n");
    m.append("Atomic-Tree: ");
    m.append(&p.tree);
    m.append("\n");
    m
}

fn identity_text(set_id: &str, state: &str, a: &ProjectionAuthor) -> (r: String)
    ensures
        r@ == identity_block(set_id@, state@, *a),
{
    let mut m: String = "atomic-set ".to_owned();
    m.append(set_id);
    m.append("\n");
    m.append("atomic-state ");
    m.append(state);
    m.append("\n");
    m.append("atomic-author ");
    m.append(&a.did);
    m.append("\n");
    let ghost head = m@;
    match &a.agent_did {
        Some(agent) => {
            let mut t: String = "atomic-agent ".to_owned();
            t.append(agent);
            t.append("\n");
            t.append("Co-authored-by: ");
            t.append(&a.name);
            t.append(" <");
            t.append(agent);
            t.append(">\n");
            m.append(&t);
        },
        None => {
            assert(head + Seq::<char>::empty() =~= head);
        },
    }
    m
}

/// The entries of a history that have something to say, oldest first.
pub open spec fn speaking(hs: Seq<HistoryEntry>) -> Seq<HistoryEntry> {
    hs.filter(|e: HistoryEntry| e.message matches Some(m) && m@.len() > 0)
}

/// A heading with the number of entries, and behind it the first line of each
/// message, newest first.
pub open spec fn paragraphs(told: Seq<HistoryEntry>) -> Seq<Seq<char>> {
    Seq::new(
        told.len() + 1,
        |k: int|
            if k == 0 {
                text::decimal(told.len()) + " Atomic changes"@
            } else {
                "* "@ + text::lines_of(told[told.len() - k].message->0@)[0]
            },
    )
}

proof fn lemma_newest_first(hs: Seq<HistoryEntry>)
    ensures
        ({
            let told = speaking(hs);
            let ms = newest_first(entry_messages(hs));
            &&& ms.len() == told.len()
            &&& forall|k: int|
                0 <= k < told.len() ==> {
                    &&& told[told.len() - 1 - k].message is Some
                    &&& told[told.len() - 1 - k].message->0@.len() > 0
                    &&& #[trigger] ms[k] == told[told.len() - 1 - k].message->0@
                }
        }),
    decreases hs.len(),
{
    let says = |e: HistoryEntry| e.message matches Some(m) && m@.len() > 0;
    if hs.len() == 0 {
        reveal(Seq::filter);
    } else {
        let first = hs[0];
        let rest = hs.drop_first();
        lemma_newest_first(rest);
        assert(hs =~= seq![first] + rest);
        Seq::filter_distributes_over_add(seq![first], rest, says);
        assert(seq![first].drop_last() =~= seq![]);
        assert(seq![first].filter(says) =~= if says(first) {
            seq![first]
        } else {
            seq![]
        }) by {
            reveal_with_fuel(Seq::filter, 2);
        }
        assert(speaking(hs) == seq![first].filter(says) + speaking(rest));
        assert(entry_messages(hs)[0] == text::opt_text(first.message));
        assert(entry_messages(hs).drop_first() =~= entry_messages(rest));
    }
}

proof fn lemma_bulleted(head: Seq<char>, ms: Seq<Seq<char>>, parts: Seq<Seq<char>>)
    requires
        parts.len() == ms.len() + 1,
        parts[0] == head,
        forall|k: int|
            0 <= k < ms.len() ==> #[trigger] parts[k + 1] == "* "@ + first_line(ms[k]),
    ensures
        bulleted(head, ms) == text::joined(parts, "\n\n"@),
    decreases ms.len(),
{
    if ms.len() > 0 {
        let shorter = parts.drop_last();
        let n = ms.len() - 1;
        assert forall|k: int| 0 <= k < n implies #[trigger] shorter[k + 1] == "* "@ + first_line(
            ms.drop_last()[k],
        ) by {
            assert(shorter[k + 1] == parts[k + 1]);
        }
        lemma_bulleted(head, ms.drop_last(), shorter);
        assert(parts.last() == parts[n + 1]);
        reveal_strlit("\n\n");
        reveal_strlit("* ");
        reveal_strlit("\n\n* ");
        assert("\n\n* "@ =~= "\n\n"@ + "* "@);
        assert(bulleted(head, ms) =~= text::joined(shorter, "\n\n"@) + "\n\n"@ + parts.last());
    }
}

/// A push without a message of its own tells of every new change that has
/// one: several are counted in the heading, and each has its own paragraph,
/// a bullet with the first line of its message, newest first. Nothing else
/// is told, and nothing is left out.
pub proof fn every_new_change_is_told(hs: Seq<HistoryEntry>)
    requires
        hs.len() > 0,
    ensures
        ({
            let told = speaking(hs);
            let n = told.len();
            let body = body_of(None, entry_messages(hs));
            &&& n == 0 ==> body == "Atomic changes"@
            &&& n == 1 ==> body == told[0].message->0@
            &&& n > 1 ==> body == text::joined(paragraphs(told), "\n\n"@)
        }),
{
    lemma_newest_first(hs);
    let told = speaking(hs);
    let n = told.len();
    let ms = newest_first(entry_messages(hs));
    assert(entry_messages(hs).len() == hs.len());
    if n == 1 {
        assert(ms[0] == told[0].message->0@);
    }
    if n > 1 {
        let head = text::decimal(n) + " Atomic changes"@;
        let parts = paragraphs(told);
        assert forall|k: int| 0 <= k < ms.len() implies #[trigger] parts[k + 1] == "* "@
            + first_line(ms[k]) by {
            assert(ms[k] == told[n - 1 - k].message->0@);
            assert(told[n - (k + 1)] == told[n - 1 - k]);
            assert(text::lines_of(ms[k]).len() > 0);
        }
        lemma_bulleted(head, ms, parts);
    }
}

/// A message of the user's own is taken as it is, and the trailer of a push
/// names every new change, oldest first.
pub proof fn a_push_keeps_message_and_changes(custom: Seq<char>, hs: Seq<HistoryEntry>, k: int)
    requires
        0 <= k < hs.len(),
    ensures
        body_of(Some(custom), entry_messages(hs)) == custom,
        entry_hashes(hs).len() == hs.len(),
        entry_hashes(hs)[k] == hs[k].hash@,
{
}

/// A known state is found where it stands first, and an unknown one nowhere.
pub proof fn a_state_is_found_where_it_stands(states: Seq<Merkle>, s: Merkle)
    ensures
        match state_index(states, s) {
            Some(i) => 0 <= i < states.len() && states[i] == s && forall|j: int|
                0 <= j < i ==> #[trigger] states[j] != s,
            None => forall|j: int| 0 <= j < states.len() ==> #[trigger] states[j] != s,
        },
    decreases states.len(),
{
    if states.len() > 0 && states[0] != s {
        let t = states.drop_first();
        a_state_is_found_where_it_stands(t, s);
        match state_index(t, s) {
            Some(i) => {
                assert forall|j: int| 0 <= j < i + 1 implies #[trigger] states[j] != s by {
                    if j > 0 {
                        assert(states[j] == t[j - 1]);
                    }
                }
            },
            None => {
                assert forall|j: int| 0 <= j < states.len() implies #[trigger] states[j] != s by {
                    if j > 0 {
                        assert(states[j] == t[j - 1]);
                    }
                }
            },
        }
    }
}

/// A commit is made exactly when the tree changed, nothing is pushed without
/// leave, and nothing is held back that is ahead.
pub proof fn unpushed_work_is_pushed(
    unchanged: bool,
    ahead: nat,
    branch: Seq<char>,
    target: Option<Seq<char>>,
    no_push: bool,
    remote: Seq<char>,
)
    ensures
        ({
            let step = push_step(unchanged, ahead, branch, target, no_push, remote);
            &&& step is Commit <==> !unchanged
            &&& step is PushExisting <==> unchanged && !no_push && (ahead > 0 || target is Some)
            &&& step matches PushStepView::PushExisting { target: t, .. } ==> t == (
            if target is Some {
                target->0
            } else {
                branch
            })
        }),
{
}

/// A second push publishes only what is new: once the newest entry of a
/// history was pushed, the next push starts behind it, whatever was recorded
/// since.
pub proof fn a_second_push_publishes_only_what_is_new(old: Seq<Merkle>, more: Seq<Merkle>)
    requires
        old.len() > 0,
        old.no_duplicates(),
    ensures
        publish_start(old + more, Some(old.last())) == Some(old.len() as int),
        publish_start(old + more, None) == Some(0int),
{
    let all = old + more;
    let s = old.last();
    a_state_is_found_where_it_stands(all, s);
    let n = old.len() - 1;
    assert(all[n] == s);
    match state_index(all, s) {
        Some(i) => {
            if i < n {
                assert(old[i] == all[i]);
                assert(old[i] != old[n]);
            } else if i > n {
                assert(all[n] != s);
            }
        },
        None => {
            assert(all[n] != s);
        },
    }
}

} // verus!
